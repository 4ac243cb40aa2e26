//! Row extraction: one raw delimited line to a validated record, or a
//! rejection.
//!
//! A line is split on commas and each field is trimmed. It is accepted
//! exactly when it has at least `MIN_FIELDS` fields and the fields at the
//! fixed schema positions (year, engine size, mileage, price) each read
//! as a finite double. `collect_records` runs that test over a whole
//! file's lines, skipping the header line and counting the rejected
//! lines. The numeric conversion of the accepted field texts is the
//! caller's.

use vstd::prelude::*;
use vstd::string::StrSliceExecFns;
use crate::numeric::find_in;
use crate::numeric::is_finite_float_text;
use crate::numeric::is_num;

verus! {

/// Position of the year field in a line.
pub const YEAR_FIELD: usize = 5;

/// Position of the engine-size field in a line.
pub const ENGINE_FIELD: usize = 7;

/// Position of the mileage field in a line.
pub const MILEAGE_FIELD: usize = 8;

/// Position of the price field in a line.
pub const PRICE_FIELD: usize = 11;

/// Fewest fields a line may have and still be a data row.
pub const MIN_FIELDS: usize = 12;

// ---------- splitting and trimming, specified ----------

/// Index of the first comma in `s`, or -1 if there is none.
pub open spec fn find_comma(s: Seq<char>) -> int
    decreases s.len(),
{
    if s.len() == 0 {
        -1
    } else if s[0] == ',' {
        0
    } else {
        let r = find_comma(s.drop_first());
        if r < 0 {
            -1
        } else {
            1 + r
        }
    }
}

/// The pieces of `s` between consecutive commas, in order, empty pieces
/// included: `n` commas give `n + 1` pieces.
pub open spec fn split_commas_spec(s: Seq<char>) -> Seq<Seq<char>>
    decreases s.len(),
{
    let k = find_comma(s);
    if k < 0 || k >= s.len() {
        seq![s]
    } else {
        seq![s.take(k)] + split_commas_spec(s.skip(k + 1))
    }
}

/// A character of Unicode's White_Space set: what `str::trim` removes at
/// the ends.
pub open spec fn is_space(c: char) -> bool {
    let u = c as u32;
    u == 0x09 || u == 0x0A || u == 0x0B || u == 0x0C || u == 0x0D || u == 0x20 || u == 0x85 || u
        == 0xA0 || u == 0x1680 || (0x2000 <= u && u <= 0x200A) || u == 0x2028 || u == 0x2029 || u
        == 0x202F || u == 0x205F || u == 0x3000
}

/// `s` without its leading and trailing white space.
pub open spec fn trim_spec(s: Seq<char>) -> Seq<char>
    decreases s.len(),
{
    if s.len() == 0 {
        s
    } else if is_space(s[0]) {
        trim_spec(s.drop_first())
    } else if is_space(s[s.len() - 1]) {
        trim_spec(s.drop_last())
    } else {
        s
    }
}

/// `find_comma` is -1 exactly when `s` has no comma, and otherwise the
/// smallest index of one.
proof fn lemma_find_comma(s: Seq<char>)
    ensures
        find_comma(s) == -1 ==> (forall|i: int| 0 <= i < s.len() ==> s[i] != ','),
        find_comma(s) != -1 ==> 0 <= find_comma(s) < s.len() && s[find_comma(s)] == ',' && (
        forall|i: int| 0 <= i < find_comma(s) ==> s[i] != ','),
    decreases s.len(),
{
    if s.len() == 0 {
    } else if s[0] == ',' {
    } else {
        lemma_find_comma(s.drop_first());
        let r = find_comma(s.drop_first());
        if r < 0 {
            assert forall|i: int| 0 <= i < s.len() implies s[i] != ',' by {
                if i > 0 {
                    assert(s.drop_first()[i - 1] == s[i]);
                }
            }
        } else {
            assert(s.drop_first()[r] == s[r + 1]);
            assert forall|i: int| 0 <= i < find_comma(s) implies s[i] != ',' by {
                if i > 0 {
                    assert(s.drop_first()[i - 1] == s[i]);
                }
            }
        }
    }
}

/// A first-comma scan over `lo..hi` fixes `find_comma` of that slice.
proof fn lemma_find_comma_slice(v: Seq<char>, lo: int, hi: int, k: int)
    requires
        0 <= lo <= hi <= v.len(),
        lo <= k <= hi,
        k < hi ==> v[k] == ',',
        forall|j: int| lo <= j < k ==> v[j] != ',',
    ensures
        find_comma(v.subrange(lo, hi)) == if k < hi {
            k - lo
        } else {
            -1
        },
{
    let m = v.subrange(lo, hi);
    lemma_find_comma(m);
    let f = find_comma(m);
    if k < hi {
        assert(m[k - lo] == v[k]);
        if f == -1 {
            assert(m[k - lo] != ',');
        }
        if f < k - lo {
            assert(m[f] == v[lo + f]);
        }
        if f > k - lo {
            assert(m[k - lo] != ',');
        }
    } else {
        if f != -1 {
            assert(m[f] == v[lo + f]);
        }
    }
}

/// Split `s` at every comma: `n` commas give `n + 1` pieces, empty
/// pieces included.
fn split_commas(s: &str) -> (r: Vec<String>)
    ensures
        r@.map_values(|t: String| t@) == split_commas_spec(s@),
{
    let n = s.unicode_len();
    let mut pieces: Vec<String> = Vec::new();
    let mut start: usize = 0;
    proof {
        assert(s@.subrange(0, n as int) =~= s@);
        assert(pieces@.map_values(|t: String| t@) + split_commas_spec(s@) =~= split_commas_spec(
            s@,
        ));
    }
    while start <= n
        invariant
            n == s@.len(),
            start <= n,
            split_commas_spec(s@) == pieces@.map_values(|t: String| t@) + split_commas_spec(
                s@.subrange(start as int, n as int),
            ),
        decreases n + 1 - start,
    {
        let ghost done = pieces@.map_values(|t: String| t@);
        let ghost rem = s@.subrange(start as int, n as int);
        let k = find_in(s, start, n, ',', ',');
        proof {
            lemma_find_comma_slice(s@, start as int, n as int, k as int);
        }
        let piece = s.substring_char(start, k).to_owned();
        pieces.push(piece);
        proof {
            assert(pieces@.map_values(|t: String| t@) =~= done.push(
                s@.subrange(start as int, k as int),
            ));
        }
        if k == n {
            proof {
                assert(split_commas_spec(rem) == seq![rem]);
                assert(done + seq![rem] =~= done.push(rem));
            }
            return pieces;
        }
        proof {
            let tail = s@.subrange(k as int + 1, n as int);
            assert(rem.take(k - start) =~= s@.subrange(start as int, k as int));
            assert(rem.skip(k - start + 1) =~= tail);
            assert(split_commas_spec(rem) == seq![rem.take(k - start)] + split_commas_spec(
                rem.skip(k - start + 1),
            ));
            assert(done + (seq![rem.take(k - start)] + split_commas_spec(tail)) =~= done.push(
                s@.subrange(start as int, k as int),
            ) + split_commas_spec(tail));
        }
        start = k + 1;
    }
    proof {
        assert(false);
    }
    pieces
}

/// Whether `c` is a white-space character.
fn is_space_char(c: char) -> (r: bool)
    ensures
        r == is_space(c),
{
    let u = c as u32;
    u == 0x09 || u == 0x0A || u == 0x0B || u == 0x0C || u == 0x0D || u == 0x20 || u == 0x85 || u
        == 0xA0 || u == 0x1680 || (0x2000 <= u && u <= 0x200A) || u == 0x2028 || u == 0x2029 || u
        == 0x202F || u == 0x205F || u == 0x3000
}

/// First index at or after `lo` whose character is not white space, or
/// the length if white space runs to the end.
fn skip_spaces(s: &str, lo: usize) -> (k: usize)
    requires
        lo <= s@.len(),
    ensures
        lo <= k <= s@.len(),
        forall|j: int| lo <= j < k ==> is_space(s@[j]),
        k < s@.len() ==> !is_space(s@[k as int]),
{
    let n = s.unicode_len();
    let mut i: usize = lo;
    while i < n
        invariant
            lo <= i <= n == s@.len(),
            forall|j: int| lo <= j < i ==> is_space(s@[j]),
        decreases n - i,
    {
        let c = s.get_char(i);
        if !is_space_char(c) {
            return i;
        }
        i = i + 1;
    }
    i
}

/// One past the last character of `lo..hi` that is not white space;
/// `lo..hi` must start with one.
fn rtrim_end(s: &str, lo: usize, hi: usize) -> (b: usize)
    requires
        lo < hi <= s@.len(),
        !is_space(s@[lo as int]),
    ensures
        lo < b <= hi,
        !is_space(s@[b - 1]),
        forall|j: int| b <= j < hi ==> is_space(s@[j]),
{
    let mut i: usize = hi;
    while i > lo
        invariant
            lo <= i <= hi <= s@.len(),
            forall|j: int| i <= j < hi ==> is_space(s@[j]),
        decreases i,
    {
        let c = s.get_char(i - 1);
        if !is_space_char(c) {
            return i;
        }
        i = i - 1;
    }
    proof {
        assert(is_space(s@[lo as int]));
        assert(false);
    }
    i
}

/// Trimming keeps exactly the span from the first to the last character
/// that is not white space.
proof fn lemma_trim_span(s: Seq<char>, a: int, b: int)
    requires
        0 <= a <= b <= s.len(),
        forall|j: int| 0 <= j < a ==> is_space(s[j]),
        forall|j: int| b <= j < s.len() ==> is_space(s[j]),
        a < b ==> !is_space(s[a]) && !is_space(s[b - 1]),
    ensures
        trim_spec(s) == s.subrange(a, b),
    decreases s.len(),
{
    if s.len() == 0 {
        assert(s.subrange(a, b) =~= s);
    } else if is_space(s[0]) {
        let t = s.drop_first();
        if a == b {
            assert forall|j: int| 0 <= j < t.len() implies is_space(t[j]) by {
                assert(t[j] == s[j + 1]);
            }
            lemma_trim_span(t, 0, 0);
            assert(s.subrange(a, b) =~= t.subrange(0, 0));
        } else {
            assert(1 <= a);
            assert forall|j: int| 0 <= j < a - 1 implies is_space(t[j]) by {
                assert(t[j] == s[j + 1]);
            }
            assert forall|j: int| b - 1 <= j < t.len() implies is_space(t[j]) by {
                assert(t[j] == s[j + 1]);
            }
            assert(t[a - 1] == s[a]);
            assert(t[b - 2] == s[b - 1]);
            lemma_trim_span(t, a - 1, b - 1);
            assert(s.subrange(a, b) =~= t.subrange(a - 1, b - 1));
        }
    } else if is_space(s[s.len() - 1]) {
        assert(a < b);
        let t = s.drop_last();
        assert(b <= t.len());
        assert forall|j: int| b <= j < t.len() implies is_space(t[j]) by {
            assert(t[j] == s[j]);
        }
        lemma_trim_span(t, a, b);
        assert(s.subrange(a, b) =~= t.subrange(a, b));
    } else {
        assert(a == 0);
        assert(b == s.len());
        assert(s.subrange(a, b) =~= s);
    }
}

/// `s` without its leading and trailing white space.
fn trim_ws(s: &str) -> (r: String)
    ensures
        r@ == trim_spec(s@),
{
    let n = s.unicode_len();
    let a = skip_spaces(s, 0);
    let b = if a == n {
        n
    } else {
        rtrim_end(s, a, n)
    };
    proof {
        lemma_trim_span(s@, a as int, b as int);
    }
    s.substring_char(a, b).to_owned()
}

// ---------- one line ----------

/// The fields of one line: the comma-separated pieces, each trimmed.
pub open spec fn line_fields(s: Seq<char>) -> Seq<Seq<char>> {
    split_commas_spec(s).map_values(|f: Seq<char>| trim_spec(f))
}

/// A line is accepted exactly when it has at least `MIN_FIELDS` fields
/// and the four schema fields each read as a finite double.
pub open spec fn line_valid(s: Seq<char>) -> bool {
    let fs = line_fields(s);
    fs.len() >= MIN_FIELDS && is_finite_float_text(fs[YEAR_FIELD as int]) && is_finite_float_text(
        fs[ENGINE_FIELD as int],
    ) && is_finite_float_text(fs[MILEAGE_FIELD as int]) && is_finite_float_text(fs[PRICE_FIELD as int])
}

/// Acceptance of a line looks only at its field count and its four
/// schema fields: two lines with enough fields and the same year, engine
/// size, mileage and price fields are accepted or rejected together,
/// whatever stands in their other fields.
pub proof fn lemma_validity_ignores_other_fields(s1: Seq<char>, s2: Seq<char>)
    requires
        line_fields(s1).len() >= MIN_FIELDS,
        line_fields(s2).len() >= MIN_FIELDS,
        line_fields(s1)[YEAR_FIELD as int] == line_fields(s2)[YEAR_FIELD as int],
        line_fields(s1)[ENGINE_FIELD as int] == line_fields(s2)[ENGINE_FIELD as int],
        line_fields(s1)[MILEAGE_FIELD as int] == line_fields(s2)[MILEAGE_FIELD as int],
        line_fields(s1)[PRICE_FIELD as int] == line_fields(s2)[PRICE_FIELD as int],
    ensures
        line_valid(s1) == line_valid(s2),
{
}

/// One validated row: the four schema fields of a line, trimmed, kept as
/// text, in the order mileage, year, engine size, price.
pub struct RawRecord {
    pub mileage: String,
    pub year: String,
    pub engine_size: String,
    pub price: String,
}

impl RawRecord {
    /// The four field texts as the tuple (mileage, year, engine size,
    /// price).
    pub open spec fn quad(&self) -> (Seq<char>, Seq<char>, Seq<char>, Seq<char>) {
        (self.mileage@, self.year@, self.engine_size@, self.price@)
    }

    /// Every field of a record produced by `parse_record` reads as a
    /// finite double.
    pub open spec fn wf(&self) -> bool {
        is_finite_float_text(self.mileage@) && is_finite_float_text(self.year@) && is_finite_float_text(
            self.engine_size@,
        ) && is_finite_float_text(self.price@)
    }
}

/// The record an accepted line yields.
pub open spec fn record_quad_of(s: Seq<char>) -> (Seq<char>, Seq<char>, Seq<char>, Seq<char>) {
    let fs = line_fields(s);
    (fs[MILEAGE_FIELD as int], fs[YEAR_FIELD as int], fs[ENGINE_FIELD as int], fs[PRICE_FIELD as int])
}

/// Turn one raw line into a validated record, or reject it. A line is
/// rejected exactly when it has fewer than `MIN_FIELDS` fields or one of
/// the four schema fields does not read as a finite double.
pub fn parse_record(line: &str) -> (r: Option<RawRecord>)
    ensures
        r is Some <==> line_valid(line@),
        r matches Some(rec) ==> rec.quad() == record_quad_of(line@) && rec.wf(),
{
    let fields = split_commas(line);
    proof {
        assert(line_fields(line@).len() == fields@.len());
    }
    if fields.len() < MIN_FIELDS {
        return None;
    }
    let year = trim_ws(fields[YEAR_FIELD].as_str());
    let engine = trim_ws(fields[ENGINE_FIELD].as_str());
    let mileage = trim_ws(fields[MILEAGE_FIELD].as_str());
    let price = trim_ws(fields[PRICE_FIELD].as_str());
    proof {
        let sp = fields@.map_values(|t: String| t@);
        assert(line_fields(line@)[YEAR_FIELD as int] == trim_spec(sp[YEAR_FIELD as int]));
        assert(line_fields(line@)[ENGINE_FIELD as int] == trim_spec(sp[ENGINE_FIELD as int]));
        assert(line_fields(line@)[MILEAGE_FIELD as int] == trim_spec(sp[MILEAGE_FIELD as int]));
        assert(line_fields(line@)[PRICE_FIELD as int] == trim_spec(sp[PRICE_FIELD as int]));
    }
    if is_num(year.as_str()) && is_num(engine.as_str()) && is_num(mileage.as_str()) && is_num(
        price.as_str(),
    ) {
        Some(RawRecord { mileage, year, engine_size: engine, price })
    } else {
        None
    }
}

// ---------- a whole file's lines ----------

/// The records of the data lines, in order: one per accepted line.
pub open spec fn records_spec(ds: Seq<Seq<char>>) -> Seq<
    (Seq<char>, Seq<char>, Seq<char>, Seq<char>),
>
    decreases ds.len(),
{
    if ds.len() == 0 {
        Seq::empty()
    } else {
        let rest = records_spec(ds.drop_last());
        if line_valid(ds.last()) {
            rest.push(record_quad_of(ds.last()))
        } else {
            rest
        }
    }
}

/// At most one record comes from each data line.
pub proof fn lemma_records_len(ds: Seq<Seq<char>>)
    ensures
        records_spec(ds).len() <= ds.len(),
    decreases ds.len(),
{
    if ds.len() > 0 {
        lemma_records_len(ds.drop_last());
    }
}

/// The data lines of a file: everything after the header line.
pub open spec fn data_lines(ls: Seq<Seq<char>>) -> Seq<Seq<char>> {
    if ls.len() == 0 {
        ls
    } else {
        ls.drop_first()
    }
}

/// The loader's computing part: skip the header line, test every later
/// line, keep the accepted records in file order and count the rejected
/// lines. The header line is not counted as a rejection.
pub fn collect_records(lines: &Vec<String>) -> (r: (Vec<RawRecord>, usize))
    ensures
        ({
            let ds = data_lines(lines@.map_values(|l: String| l@));
            &&& r.0@.map_values(|rec: RawRecord| rec.quad()) == records_spec(ds)
            &&& r.1 as int == ds.len() - records_spec(ds).len()
            &&& forall|i: int| 0 <= i < r.0@.len() ==> (#[trigger] r.0@[i]).wf()
        }),
{
    let ghost lv = lines@.map_values(|l: String| l@);
    let mut recs: Vec<RawRecord> = Vec::new();
    let mut skipped: usize = 0;
    if lines.len() == 0 {
        proof {
            assert(recs@.map_values(|rec: RawRecord| rec.quad()) =~= records_spec(
                data_lines(lv),
            ));
        }
        return (recs, 0);
    }
    let mut i: usize = 1;
    while i < lines.len()
        invariant
            1 <= i <= lines@.len(),
            lv == lines@.map_values(|l: String| l@),
            recs@.map_values(|rec: RawRecord| rec.quad()) == records_spec(lv.subrange(1, i as int)),
            skipped as int == (i - 1) - records_spec(lv.subrange(1, i as int)).len(),
            forall|j: int| 0 <= j < recs@.len() ==> (#[trigger] recs@[j]).wf(),
        decreases lines@.len() - i,
    {
        proof {
            lemma_records_len(lv.subrange(1, i as int));
            assert(lv.subrange(1, i as int + 1).drop_last() =~= lv.subrange(1, i as int));
            assert(lv.subrange(1, i as int + 1).last() == lv[i as int]);
            assert(lv[i as int] == lines@[i as int]@);
        }
        match parse_record(lines[i].as_str()) {
            Some(rec) => {
                recs.push(rec);
                proof {
                    assert(recs@.map_values(|rec: RawRecord| rec.quad()) =~= records_spec(
                        lv.subrange(1, i as int + 1),
                    ));
                }
            },
            None => {
                skipped = skipped + 1;
            },
        }
        i = i + 1;
    }
    proof {
        assert(lv.subrange(1, i as int) =~= data_lines(lv));
    }
    (recs, skipped)
}

} // verus!
