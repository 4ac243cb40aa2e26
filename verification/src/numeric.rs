//! What counts as a finite numeric field.
//!
//! `is_num` accepts a field exactly when it parses as a finite double:
//! an optional sign, then a decimal number with an optional exponent,
//! whose value is strictly below 2^1024 - 2^970, the threshold at which
//! rounding reaches infinity. The `inf`, `infinity` and `nan` spellings
//! that `str::parse::<f64>` would also take are rejected, and so is
//! every text whose value rounds to plus or minus infinity. The test is
//! exact and purely textual: a nonzero value with its leading digit's
//! decimal exponent at most `MAX_FINITE_EXP` is below 10^308 and always
//! finite; at exponent 308 its significant digits are compared against
//! the threshold's decimal expansion, `max_finite_digits`; above, the
//! value always overflows.

use vstd::prelude::*;
use vstd::string::StrSliceExecFns;

verus! {

// ---------- character classes ----------

/// A decimal digit `0` through `9`.
pub open spec fn is_digit(c: char) -> bool {
    48 <= (c as u32) && (c as u32) <= 57
}

/// A sign character.
pub open spec fn is_sign(c: char) -> bool {
    c == '+' || c == '-'
}

/// An exponent marker.
pub open spec fn is_exp_marker(c: char) -> bool {
    c == 'e' || c == 'E'
}

/// Highest decimal exponent of a leading digit at which every nonzero
/// value is a finite `f64`: below 10^308 nothing overflows. One higher,
/// the digits against `max_finite_digits` decide; above, nothing is
/// finite.
pub const MAX_FINITE_EXP: usize = 307;

// ---------- first occurrences ----------

/// Index of the first `.` in `s`, or -1 if there is none.
pub open spec fn find_dot(s: Seq<char>) -> int
    decreases s.len(),
{
    if s.len() == 0 {
        -1
    } else if s[0] == '.' {
        0
    } else {
        let r = find_dot(s.drop_first());
        if r < 0 {
            -1
        } else {
            1 + r
        }
    }
}

/// Index of the first exponent marker in `s`, or -1 if there is none.
pub open spec fn find_exp(s: Seq<char>) -> int
    decreases s.len(),
{
    if s.len() == 0 {
        -1
    } else if is_exp_marker(s[0]) {
        0
    } else {
        let r = find_exp(s.drop_first());
        if r < 0 {
            -1
        } else {
            1 + r
        }
    }
}

/// `find_dot` is -1 exactly when `s` has no dot, and otherwise the
/// smallest index of one.
pub proof fn lemma_find_dot(s: Seq<char>)
    ensures
        find_dot(s) == -1 ==> (forall|i: int| 0 <= i < s.len() ==> s[i] != '.'),
        find_dot(s) != -1 ==> 0 <= find_dot(s) < s.len() && s[find_dot(s)] == '.' && (forall|i: int|
            0 <= i < find_dot(s) ==> s[i] != '.'),
    decreases s.len(),
{
    if s.len() == 0 {
    } else if s[0] == '.' {
    } else {
        lemma_find_dot(s.drop_first());
        let r = find_dot(s.drop_first());
        if r < 0 {
            assert forall|i: int| 0 <= i < s.len() implies s[i] != '.' by {
                if i > 0 {
                    assert(s.drop_first()[i - 1] == s[i]);
                }
            }
        } else {
            assert(s.drop_first()[r] == s[r + 1]);
            assert forall|i: int| 0 <= i < find_dot(s) implies s[i] != '.' by {
                if i > 0 {
                    assert(s.drop_first()[i - 1] == s[i]);
                }
            }
        }
    }
}

/// `find_exp` is -1 exactly when `s` has no exponent marker, and
/// otherwise the smallest index of one.
pub proof fn lemma_find_exp(s: Seq<char>)
    ensures
        find_exp(s) == -1 ==> (forall|i: int| 0 <= i < s.len() ==> !is_exp_marker(s[i])),
        find_exp(s) != -1 ==> 0 <= find_exp(s) < s.len() && is_exp_marker(s[find_exp(s)]) && (
        forall|i: int| 0 <= i < find_exp(s) ==> !is_exp_marker(s[i])),
    decreases s.len(),
{
    if s.len() == 0 {
    } else if is_exp_marker(s[0]) {
    } else {
        lemma_find_exp(s.drop_first());
        let r = find_exp(s.drop_first());
        if r < 0 {
            assert forall|i: int| 0 <= i < s.len() implies !is_exp_marker(s[i]) by {
                if i > 0 {
                    assert(s.drop_first()[i - 1] == s[i]);
                }
            }
        } else {
            assert(s.drop_first()[r] == s[r + 1]);
            assert forall|i: int| 0 <= i < find_exp(s) implies !is_exp_marker(s[i]) by {
                if i > 0 {
                    assert(s.drop_first()[i - 1] == s[i]);
                }
            }
        }
    }
}

/// Index of the first character of a mantissa that is a nonzero digit
/// (neither `0` nor `.`), or -1 if there is none.
pub open spec fn find_nonzero(m: Seq<char>) -> int
    decreases m.len(),
{
    if m.len() == 0 {
        -1
    } else if m[0] != '0' && m[0] != '.' {
        0
    } else {
        let r = find_nonzero(m.drop_first());
        if r < 0 {
            -1
        } else {
            1 + r
        }
    }
}

/// `find_nonzero` is -1 exactly when every character is `0` or `.`, and
/// otherwise the smallest index of another character.
pub proof fn lemma_find_nonzero(m: Seq<char>)
    ensures
        find_nonzero(m) == -1 ==> (forall|i: int|
            0 <= i < m.len() ==> (m[i] == '0' || m[i] == '.')),
        find_nonzero(m) != -1 ==> 0 <= find_nonzero(m) < m.len() && m[find_nonzero(m)] != '0'
            && m[find_nonzero(m)] != '.' && (forall|i: int|
            0 <= i < find_nonzero(m) ==> (m[i] == '0' || m[i] == '.')),
    decreases m.len(),
{
    if m.len() == 0 {
    } else if m[0] != '0' && m[0] != '.' {
    } else {
        lemma_find_nonzero(m.drop_first());
        let r = find_nonzero(m.drop_first());
        if r < 0 {
            assert forall|i: int| 0 <= i < m.len() implies (m[i] == '0' || m[i] == '.') by {
                if i > 0 {
                    assert(m.drop_first()[i - 1] == m[i]);
                }
            }
        } else {
            assert(m.drop_first()[r] == m[r + 1]);
            assert forall|i: int| 0 <= i < find_nonzero(m) implies (m[i] == '0' || m[i] == '.') by {
                if i > 0 {
                    assert(m.drop_first()[i - 1] == m[i]);
                }
            }
        }
    }
}

// ---------- the grammar ----------

/// The text with one leading sign removed, if present.
pub open spec fn strip_sign(s: Seq<char>) -> Seq<char> {
    if s.len() >= 1 && is_sign(s[0]) {
        s.drop_first()
    } else {
        s
    }
}

/// Every character of `s` is a decimal digit.
pub open spec fn all_digits(s: Seq<char>) -> bool {
    forall|i: int| 0 <= i < s.len() ==> is_digit(#[trigger] s[i])
}

/// A mantissa: decimal digits with at most one decimal point anywhere,
/// and at least one digit.
pub open spec fn is_mantissa_text(m: Seq<char>) -> bool {
    let d = find_dot(m);
    if d < 0 {
        m.len() >= 1 && all_digits(m)
    } else {
        m.len() >= 2 && all_digits(m.take(d)) && all_digits(m.skip(d + 1))
    }
}

/// An exponent suffix (what follows the marker): an optional sign, then
/// at least one digit.
pub open spec fn is_exp_text(x: Seq<char>) -> bool {
    let y = strip_sign(x);
    y.len() >= 1 && all_digits(y)
}

/// A decimal number: a mantissa, optionally followed by an exponent
/// marker and an exponent suffix.
pub open spec fn is_number_text(t: Seq<char>) -> bool {
    let k = find_exp(t);
    if k < 0 {
        is_mantissa_text(t)
    } else {
        is_mantissa_text(t.take(k)) && is_exp_text(t.skip(k + 1))
    }
}

// ---------- the magnitude of a number text ----------

/// Ten to the `n`.
pub open spec fn pow10(n: nat) -> int
    decreases n,
{
    if n == 0 {
        1
    } else {
        10 * pow10((n - 1) as nat)
    }
}

/// The value of a run of decimal digits, read left to right onto `acc`.
pub open spec fn digits_acc(s: Seq<char>, acc: int) -> int
    decreases s.len(),
{
    if s.len() == 0 {
        acc
    } else {
        digits_acc(s.drop_first(), 10 * acc + ((s[0] as u32) - 48))
    }
}

/// The signed value of an exponent suffix: optional sign, then digits.
pub open spec fn exp_value(x: Seq<char>) -> int {
    if x.len() >= 1 && x[0] == '-' {
        -digits_acc(x.drop_first(), 0)
    } else {
        digits_acc(strip_sign(x), 0)
    }
}

/// Count of a mantissa's integer digits: those before the dot.
pub open spec fn int_digits(m: Seq<char>) -> int {
    let d = find_dot(m);
    if d < 0 {
        m.len() as int
    } else {
        d
    }
}

/// The decimal exponent of a mantissa's leading nonzero digit:
/// `123.45` gives 2, `0.00123` gives -3.
pub open spec fn lead_exp(m: Seq<char>) -> int {
    let i = find_nonzero(m);
    let d = find_dot(m);
    let before = if 0 <= d < i {
        i - 1
    } else {
        i
    };
    int_digits(m) - 1 - before
}

/// The mantissa part of a number text: what precedes the exponent
/// marker.
pub open spec fn mantissa_of(t: Seq<char>) -> Seq<char> {
    let k = find_exp(t);
    if k < 0 {
        t
    } else {
        t.take(k)
    }
}

/// The decimal exponent of a number text's leading nonzero digit: the
/// mantissa's own, shifted by the exponent suffix.
pub open spec fn magnitude_exp(t: Seq<char>) -> int {
    let k = find_exp(t);
    if k < 0 {
        lead_exp(t)
    } else {
        lead_exp(t.take(k)) + exp_value(t.skip(k + 1))
    }
}

/// A mantissa's digit characters, the decimal point removed.
pub open spec fn drop_dot(m: Seq<char>) -> Seq<char>
    decreases m.len(),
{
    if m.len() == 0 {
        Seq::empty()
    } else {
        let rest = drop_dot(m.drop_last());
        if m.last() == '.' {
            rest
        } else {
            rest.push(m.last())
        }
    }
}

/// A mantissa's significant digits: from the leading nonzero digit to
/// the end, the decimal point removed.
pub open spec fn sig_digits(m: Seq<char>) -> Seq<char> {
    let dm = drop_dot(m);
    let j = find_nonzero(dm);
    if j < 0 {
        Seq::empty()
    } else {
        dm.skip(j)
    }
}

/// Whether the number with significant digits `sig` is strictly below
/// the one with digits `thr`, both leading digits at the same decimal
/// position: digit-by-digit comparison, `sig` padded with zeros.
pub open spec fn sig_lt(sig: Seq<char>, thr: Seq<char>) -> bool
    decreases thr.len(),
{
    if thr.len() == 0 {
        false
    } else {
        let a = if sig.len() > 0 {
            sig[0]
        } else {
            '0'
        };
        if a != thr[0] {
            (a as u32) < (thr[0] as u32)
        } else {
            sig_lt(
                if sig.len() > 0 {
                    sig.drop_first()
                } else {
                    sig
                },
                thr.drop_first(),
            )
        }
    }
}

/// The decimal expansion of 2^1024 - 2^970, the smallest value that
/// rounds to infinity in an `f64`: 309 digits. A parsed value is finite
/// exactly when it is strictly below this number.
pub open spec fn max_finite_digits() -> Seq<char> {
    "179769313486231580793728971405303415079934132710037826936173778980444968292764750946649017977587207096330286416692887910946555547851940402630657488671505820681908902000708383676273854845817711531764475730270069855571366959622842914819860834936475292719074168444365510704342711559699508093042880177904174497792"@
}

/// A decimal number whose value is a finite `f64`: the number grammar,
/// and the value either zero, or with its leading digit's decimal
/// exponent at most `MAX_FINITE_EXP`, or at exponent 308 with its
/// significant digits strictly below `max_finite_digits`.
pub open spec fn is_finite_number_text(t: Seq<char>) -> bool {
    is_number_text(t) && (find_nonzero(mantissa_of(t)) < 0 || magnitude_exp(t)
        <= MAX_FINITE_EXP as int || (magnitude_exp(t) == MAX_FINITE_EXP as int + 1 && sig_lt(
        sig_digits(mantissa_of(t)),
        max_finite_digits(),
    )))
}

/// The field texts accepted as numeric: an optional sign, then a decimal
/// number with an optional exponent, whose value parses to a finite
/// `f64` — strictly below 2^1024 - 2^970, the rounding threshold to
/// infinity. The `inf`, `infinity` and `nan` spellings are not accepted.
pub open spec fn is_finite_float_text(s: Seq<char>) -> bool {
    is_finite_number_text(strip_sign(s))
}

// ---------- executable recognizer ----------

/// First index in `lo..hi` whose character is `a` or `b`; `hi` if none.
pub(crate) fn find_in(v: &str, lo: usize, hi: usize, a: char, b: char) -> (k: usize)
    requires
        lo <= hi <= v@.len(),
    ensures
        lo <= k <= hi,
        k < hi ==> (v@[k as int] == a || v@[k as int] == b),
        forall|j: int| lo <= j < k ==> !(v@[j] == a || v@[j] == b),
{
    let mut i: usize = lo;
    while i < hi
        invariant
            lo <= i <= hi <= v@.len(),
            forall|j: int| lo <= j < i ==> !(v@[j] == a || v@[j] == b),
        decreases hi - i,
    {
        let c = v.get_char(i);
        if c == a || c == b {
            return i;
        }
        i = i + 1;
    }
    i
}

/// Whether every character in `lo..hi` is a decimal digit.
fn digits_in(v: &str, lo: usize, hi: usize) -> (r: bool)
    requires
        lo <= hi <= v@.len(),
    ensures
        r == (forall|j: int| lo <= j < hi ==> is_digit(#[trigger] v@[j])),
{
    let mut i: usize = lo;
    while i < hi
        invariant
            lo <= i <= hi <= v@.len(),
            forall|j: int| lo <= j < i ==> is_digit(#[trigger] v@[j]),
        decreases hi - i,
    {
        let c = v.get_char(i);
        let u = c as u32;
        if !(48 <= u && u <= 57) {
            assert(!is_digit(v@[i as int]));
            return false;
        }
        i = i + 1;
    }
    true
}

/// All-digits over a slice of the view equals all-digits over the range.
proof fn lemma_digits_slice(v: Seq<char>, lo: int, hi: int)
    requires
        0 <= lo <= hi <= v.len(),
    ensures
        all_digits(v.subrange(lo, hi)) == (forall|j: int| lo <= j < hi ==> is_digit(
            #[trigger] v[j],
        )),
{
    let m = v.subrange(lo, hi);
    if forall|j: int| lo <= j < hi ==> is_digit(#[trigger] v[j]) {
        assert forall|i: int| 0 <= i < m.len() implies is_digit(#[trigger] m[i]) by {
            assert(m[i] == v[lo + i]);
        }
    } else {
        let j0 = choose|j: int| lo <= j < hi && !is_digit(#[trigger] v[j]);
        assert(m[j0 - lo] == v[j0]);
        assert(!all_digits(m));
    }
}

/// A first-dot scan over `lo..hi` fixes `find_dot` of that slice.
proof fn lemma_find_dot_slice(v: Seq<char>, lo: int, hi: int, k: int)
    requires
        0 <= lo <= hi <= v.len(),
        lo <= k <= hi,
        k < hi ==> v[k] == '.',
        forall|j: int| lo <= j < k ==> v[j] != '.',
    ensures
        find_dot(v.subrange(lo, hi)) == if k < hi {
            k - lo
        } else {
            -1
        },
{
    let m = v.subrange(lo, hi);
    lemma_find_dot(m);
    let f = find_dot(m);
    if k < hi {
        assert(m[k - lo] == v[k]);
        if f == -1 {
            assert(m[k - lo] != '.');
        }
        if f < k - lo {
            assert(m[f] == v[lo + f]);
        }
        if f > k - lo {
            assert(m[k - lo] != '.');
        }
    } else {
        if f != -1 {
            assert(m[f] == v[lo + f]);
        }
    }
}

/// A first-exponent-marker scan over `lo..hi` fixes `find_exp` of that
/// slice.
proof fn lemma_find_exp_slice(v: Seq<char>, lo: int, hi: int, k: int)
    requires
        0 <= lo <= hi <= v.len(),
        lo <= k <= hi,
        k < hi ==> is_exp_marker(v[k]),
        forall|j: int| lo <= j < k ==> !is_exp_marker(v[j]),
    ensures
        find_exp(v.subrange(lo, hi)) == if k < hi {
            k - lo
        } else {
            -1
        },
{
    let m = v.subrange(lo, hi);
    lemma_find_exp(m);
    let f = find_exp(m);
    if k < hi {
        assert(m[k - lo] == v[k]);
        if f == -1 {
            assert(!is_exp_marker(m[k - lo]));
        }
        if f < k - lo {
            assert(m[f] == v[lo + f]);
        }
        if f > k - lo {
            assert(!is_exp_marker(m[k - lo]));
        }
    } else {
        if f != -1 {
            assert(m[f] == v[lo + f]);
        }
    }
}

/// A first-nonzero-digit scan over `lo..hi` fixes `find_nonzero` of that
/// slice.
proof fn lemma_find_nonzero_slice(v: Seq<char>, lo: int, hi: int, k: int)
    requires
        0 <= lo <= hi <= v.len(),
        lo <= k <= hi,
        k < hi ==> (v[k] != '0' && v[k] != '.'),
        forall|j: int| lo <= j < k ==> (v[j] == '0' || v[j] == '.'),
    ensures
        find_nonzero(v.subrange(lo, hi)) == if k < hi {
            k - lo
        } else {
            -1
        },
{
    let m = v.subrange(lo, hi);
    lemma_find_nonzero(m);
    let f = find_nonzero(m);
    if k < hi {
        assert(m[k - lo] == v[k]);
        if f == -1 {
            assert(m[k - lo] == '0' || m[k - lo] == '.');
        }
        if f < k - lo {
            assert(m[f] == v[lo + f]);
        }
        if f > k - lo {
            assert(m[k - lo] == '0' || m[k - lo] == '.');
        }
    } else {
        if f != -1 {
            assert(m[f] == v[lo + f]);
        }
    }
}

/// Ten to the `n` is at least one.
proof fn lemma_pow10_pos(n: nat)
    ensures
        pow10(n) >= 1,
    decreases n,
{
    if n > 0 {
        lemma_pow10_pos((n - 1) as nat);
    }
}

/// Ten to the `n` grows with `n`.
proof fn lemma_pow10_mono(a: nat, b: nat)
    requires
        a <= b,
    ensures
        pow10(a) <= pow10(b),
    decreases b,
{
    if a < b {
        lemma_pow10_mono(a, (b - 1) as nat);
        lemma_pow10_pos((b - 1) as nat);
    }
}

/// The value of an all-digit run lies between `acc * 10^len` and
/// `(acc + 1) * 10^len`.
proof fn lemma_digits_acc_bounds(s: Seq<char>, acc: int)
    requires
        all_digits(s),
        acc >= 0,
    ensures
        acc * pow10(s.len()) <= digits_acc(s, acc) < (acc + 1) * pow10(s.len()),
    decreases s.len(),
{
    if s.len() == 0 {
        assert(digits_acc(s, acc) == acc);
        assert(pow10(s.len()) == 1);
    } else {
        assert(is_digit(s[0]));
        let d: int = (s[0] as u32) - 48;
        let t = s.drop_first();
        assert forall|i: int| 0 <= i < t.len() implies is_digit(#[trigger] t[i]) by {
            assert(t[i] == s[i + 1]);
        }
        assert(digits_acc(s, acc) == digits_acc(t, 10 * acc + d));
        lemma_digits_acc_bounds(t, 10 * acc + d);
        let p = pow10(t.len());
        lemma_pow10_pos(t.len());
        assert(pow10(s.len()) == 10 * p);
        assert(acc * (10 * p) <= (10 * acc + d) * p) by (nonlinear_arith)
            requires
                p >= 1,
                d >= 0,
        ;
        assert((10 * acc + d + 1) * p <= (acc + 1) * (10 * p)) by (nonlinear_arith)
            requires
                p >= 1,
                d <= 9,
        ;
        assert(acc * pow10(s.len()) == acc * (10 * p)) by (nonlinear_arith)
            requires
                pow10(s.len()) == 10 * p,
        ;
        assert((acc + 1) * pow10(s.len()) == (acc + 1) * (10 * p)) by (nonlinear_arith)
            requires
                pow10(s.len()) == 10 * p,
        ;
        assert(acc * pow10(s.len()) <= digits_acc(s, acc));
        assert(digits_acc(s, acc) < (acc + 1) * pow10(s.len()));
    }
}

/// An all-digit run with a nonzero leading digit has value at least
/// `10^(len - 1)`.
proof fn lemma_digits_lower(s: Seq<char>)
    requires
        all_digits(s),
        s.len() >= 1,
        s[0] != '0',
    ensures
        digits_acc(s, 0) >= pow10((s.len() - 1) as nat),
{
    assert(is_digit(s[0]));
    let d: int = (s[0] as u32) - 48;
    vstd::utf8::char_u32_cast(s[0], s[0] as u32);
    vstd::utf8::char_u32_cast('0', 48);
    assert(d >= 1);
    let t = s.drop_first();
    assert forall|i: int| 0 <= i < t.len() implies is_digit(#[trigger] t[i]) by {
        assert(t[i] == s[i + 1]);
    }
    assert(digits_acc(s, 0) == digits_acc(t, d));
    lemma_digits_acc_bounds(t, d);
    let p = pow10(t.len());
    lemma_pow10_pos(t.len());
    assert(d * p >= p) by (nonlinear_arith)
        requires
            d >= 1,
            p >= 1,
    ;
}

/// Leading zero digits do not change the value of a digit run.
proof fn lemma_digits_zeros(s: Seq<char>, k: int)
    requires
        0 <= k <= s.len(),
        forall|j: int| 0 <= j < k ==> s[j] == '0',
    ensures
        digits_acc(s, 0) == digits_acc(s.skip(k), 0),
    decreases k,
{
    if k > 0 {
        assert(s[0] == '0');
        let t = s.drop_first();
        assert(digits_acc(s, 0) == digits_acc(t, 0));
        assert forall|j: int| 0 <= j < k - 1 implies t[j] == '0' by {
            assert(t[j] == s[j + 1]);
        }
        lemma_digits_zeros(t, k - 1);
        assert(t.skip(k - 1) =~= s.skip(k));
    } else {
        assert(s.skip(0) =~= s);
    }
}

/// Whether `lo..hi` is a mantissa.
fn mantissa_in(v: &str, lo: usize, hi: usize) -> (r: bool)
    requires
        lo <= hi <= v@.len(),
    ensures
        r == is_mantissa_text(v@.subrange(lo as int, hi as int)),
{
    let ghost m = v@.subrange(lo as int, hi as int);
    let d = find_in(v, lo, hi, '.', '.');
    proof {
        lemma_find_dot_slice(v@, lo as int, hi as int, d as int);
    }
    if d == hi {
        if hi - lo >= 1 {
            let r = digits_in(v, lo, hi);
            proof {
                lemma_digits_slice(v@, lo as int, hi as int);
            }
            r
        } else {
            false
        }
    } else {
        if hi - lo >= 2 {
            let r1 = digits_in(v, lo, d);
            let r2 = digits_in(v, d + 1, hi);
            proof {
                assert(m.take(d - lo) =~= v@.subrange(lo as int, d as int));
                assert(m.skip(d - lo + 1) =~= v@.subrange(d as int + 1, hi as int));
                lemma_digits_slice(v@, lo as int, d as int);
                lemma_digits_slice(v@, d as int + 1, hi as int);
            }
            r1 && r2
        } else {
            false
        }
    }
}

/// Whether `lo..hi` is an exponent suffix.
fn exp_in(v: &str, lo: usize, hi: usize) -> (r: bool)
    requires
        lo <= hi <= v@.len(),
    ensures
        r == is_exp_text(v@.subrange(lo as int, hi as int)),
{
    let ghost x = v@.subrange(lo as int, hi as int);
    let mut start: usize = lo;
    if lo < hi {
        let c = v.get_char(lo);
        if c == '+' || c == '-' {
            start = lo + 1;
        }
    }
    proof {
        assert(strip_sign(x) =~= v@.subrange(start as int, hi as int));
    }
    if hi - start >= 1 {
        let r = digits_in(v, start, hi);
        proof {
            lemma_digits_slice(v@, start as int, hi as int);
        }
        r
    } else {
        false
    }
}

/// First index in `lo..hi` whose character is a nonzero digit — neither
/// `0` nor `.`; `hi` if there is none.
fn find_nz_in(v: &str, lo: usize, hi: usize) -> (k: usize)
    requires
        lo <= hi <= v@.len(),
    ensures
        lo <= k <= hi,
        k < hi ==> (v@[k as int] != '0' && v@[k as int] != '.'),
        forall|j: int| lo <= j < k ==> (v@[j] == '0' || v@[j] == '.'),
{
    let mut i: usize = lo;
    while i < hi
        invariant
            lo <= i <= hi <= v@.len(),
            forall|j: int| lo <= j < i ==> (v@[j] == '0' || v@[j] == '.'),
        decreases hi - i,
    {
        let c = v.get_char(i);
        if !(c == '0' || c == '.') {
            return i;
        }
        i = i + 1;
    }
    i
}

/// `lead` plus the value of the exponent suffix in `lo..hi`, exact
/// around the finite boundary and saturated far beyond it.
fn exp_mag(v: &str, lo: usize, hi: usize, lead: i128) -> (mag: i128)
    requires
        lo <= hi <= v@.len(),
        is_exp_text(v@.subrange(lo as int, hi as int)),
        -0x20000000000000000 <= lead as int <= 0x20000000000000000,
    ensures
        ((mag as int) <= MAX_FINITE_EXP as int) == (lead as int + exp_value(
            v@.subrange(lo as int, hi as int),
        ) <= MAX_FINITE_EXP as int),
        ((mag as int) == MAX_FINITE_EXP as int + 1) == (lead as int + exp_value(
            v@.subrange(lo as int, hi as int),
        ) == MAX_FINITE_EXP as int + 1),
{
    let ghost x = v@.subrange(lo as int, hi as int);
    proof {
        assert(x.len() >= 1);
    }
    let c0 = v.get_char(lo);
    let mut p: usize = lo;
    let mut neg = false;
    if c0 == '-' {
        neg = true;
        p = lo + 1;
    } else if c0 == '+' {
        p = lo + 1;
    }
    let ghost dg = v@.subrange(p as int, hi as int);
    proof {
        assert(strip_sign(x) =~= dg);
        if neg {
            assert(x.drop_first() =~= dg);
        }
        lemma_digits_slice(v@, p as int, hi as int);
    }
    let z = find_nz_in(v, p, hi);
    proof {
        assert forall|j: int| 0 <= j < z - p implies dg[j] == '0' by {
            assert(dg[j] == v@[p + j]);
            assert(is_digit(v@[p + j]));
        }
        lemma_digits_zeros(dg, z as int - p as int);
        assert(dg.skip(z as int - p as int) =~= v@.subrange(z as int, hi as int));
    }
    let ghost zd = v@.subrange(z as int, hi as int);
    let nd = hi - z;
    if nd == 0 {
        proof {
            assert(zd.len() == 0);
        }
        return lead;
    }
    if nd > 20 {
        proof {
            assert forall|j: int| 0 <= j < zd.len() implies is_digit(#[trigger] zd[j]) by {
                assert(zd[j] == v@[z + j]);
            }
            assert(zd[0] == v@[z as int]);
            lemma_digits_lower(zd);
            lemma_pow10_mono(20, (nd - 1) as nat);
            assert(pow10(20) == 100000000000000000000) by {
                reveal_with_fuel(pow10, 21);
            }
        }
        if neg {
            return lead - 100000000000000000000;
        } else {
            return lead + 100000000000000000000;
        }
    }
    let mut acc: u128 = 0;
    let mut i: usize = z;
    while i < hi
        invariant
            z <= i <= hi <= v@.len(),
            hi - z <= 20,
            forall|j: int| z <= j < hi ==> is_digit(#[trigger] v@[j]),
            digits_acc(v@.subrange(z as int, hi as int), 0) == digits_acc(
                v@.subrange(i as int, hi as int),
                acc as int,
            ),
            (acc as int) < pow10((i - z) as nat),
        decreases hi - i,
    {
        proof {
            lemma_pow10_mono((i - z) as nat, 19);
            assert(pow10(19) == 10000000000000000000) by {
                reveal_with_fuel(pow10, 20);
            }
        }
        let c = v.get_char(i);
        let u = c as u32;
        proof {
            assert(is_digit(v@[i as int]));
        }
        let d = (u - 48) as u128;
        proof {
            assert(v@.subrange(i as int, hi as int)[0] == v@[i as int]);
            assert(v@.subrange(i as int, hi as int).drop_first() =~= v@.subrange(
                i as int + 1,
                hi as int,
            ));
            assert(pow10(((i + 1) - z) as nat) == 10 * pow10((i - z) as nat));
        }
        acc = 10 * acc + d;
        i = i + 1;
    }
    proof {
        assert(v@.subrange(hi as int, hi as int).len() == 0);
        lemma_pow10_mono((i - z) as nat, 20);
        assert(pow10(20) == 100000000000000000000) by {
            reveal_with_fuel(pow10, 21);
        }
    }
    let e: i128 = acc as i128;
    let signed: i128 = if neg {
        -e
    } else {
        e
    };
    lead + signed
}

/// What is left of the significant digits after the first `j`.
spec fn sig_from(sig: Seq<char>, j: int) -> Seq<char> {
    if 0 <= j < sig.len() {
        sig.skip(j)
    } else {
        Seq::empty()
    }
}

/// Peeling one position off the significant digits.
proof fn lemma_sig_from_step(sig: Seq<char>, j: int)
    requires
        0 <= j,
    ensures
        (if sig_from(sig, j).len() > 0 {
            sig_from(sig, j).drop_first()
        } else {
            sig_from(sig, j)
        }) == sig_from(sig, j + 1),
{
    if j < sig.len() {
        if j + 1 < sig.len() {
            assert(sig.skip(j).drop_first() =~= sig.skip(j + 1));
        } else {
            assert(sig.skip(j).drop_first() =~= Seq::<char>::empty());
        }
    }
}

/// Index of the first character of `dv` that is not `0`; the length if
/// all are.
fn first_nonzero_vec(dv: &Vec<char>) -> (j: usize)
    ensures
        j <= dv@.len(),
        j < dv@.len() ==> dv@[j as int] != '0',
        forall|i: int| 0 <= i < j ==> dv@[i] == '0',
{
    let n = dv.len();
    let mut i: usize = 0;
    while i < n
        invariant
            i <= n == dv@.len(),
            forall|q: int| 0 <= q < i ==> dv@[q] == '0',
        decreases n - i,
    {
        if dv[i] != '0' {
            return i;
        }
        i = i + 1;
    }
    i
}

/// Whether the mantissa in `lo..hi` has its significant digits strictly
/// below the finite threshold `max_finite_digits`.
fn sig_below_max(v: &str, lo: usize, hi: usize) -> (r: bool)
    requires
        lo <= hi <= v@.len(),
    ensures
        r == sig_lt(sig_digits(v@.subrange(lo as int, hi as int)), max_finite_digits()),
{
    let ghost m = v@.subrange(lo as int, hi as int);
    let mut dv: Vec<char> = Vec::new();
    let mut p: usize = lo;
    proof {
        assert(dv@ =~= drop_dot(v@.subrange(lo as int, lo as int)));
    }
    while p < hi
        invariant
            lo <= p <= hi <= v@.len(),
            dv@ == drop_dot(v@.subrange(lo as int, p as int)),
            forall|i: int| 0 <= i < dv@.len() ==> dv@[i] != '.',
        decreases hi - p,
    {
        let c = v.get_char(p);
        proof {
            assert(v@.subrange(lo as int, p as int + 1).drop_last() =~= v@.subrange(
                lo as int,
                p as int,
            ));
            assert(v@.subrange(lo as int, p as int + 1).last() == v@[p as int]);
        }
        if c != '.' {
            dv.push(c);
        }
        p = p + 1;
    }
    let ghost dm = drop_dot(m);
    proof {
        assert(dv@ == dm);
    }
    let j0 = first_nonzero_vec(&dv);
    proof {
        lemma_find_nonzero(dm);
        let f = find_nonzero(dm);
        if j0 < dv.len() {
            if f == -1 {
                assert(dm[j0 as int] == '0' || dm[j0 as int] == '.');
            }
            if 0 <= f < j0 as int {
                assert(dm[f] == '0');
            }
            if f > j0 as int {
                assert(dm[j0 as int] == '0' || dm[j0 as int] == '.');
            }
            assert(f == j0 as int);
        } else {
            if f != -1 {
                assert(dm[f] == '0');
            }
            assert(f == -1);
        }
    }
    let ghost sig = sig_digits(m);
    let thr =
        "179769313486231580793728971405303415079934132710037826936173778980444968292764750946649017977587207096330286416692887910946555547851940402630657488671505820681908902000708383676273854845817711531764475730270069855571366959622842914819860834936475292719074168444365510704342711559699508093042880177904174497792";
    proof {
        reveal_strlit(
            "179769313486231580793728971405303415079934132710037826936173778980444968292764750946649017977587207096330286416692887910946555547851940402630657488671505820681908902000708383676273854845817711531764475730270069855571366959622842914819860834936475292719074168444365510704342711559699508093042880177904174497792",
        );
        assert(thr@ == max_finite_digits());
        assert(thr@.len() == 309);
        assert(sig_from(sig, 0) =~= sig);
        assert(max_finite_digits().skip(0) =~= max_finite_digits());
    }
    let mut j: usize = 0;
    while j < 309
        invariant
            j <= 309,
            thr@ == max_finite_digits(),
            thr@.len() == 309,
            lo <= hi <= v@.len(),
            dv@ == dm,
            dm == drop_dot(v@.subrange(lo as int, hi as int)),
            j0 <= dv@.len(),
            sig == sig_digits(v@.subrange(lo as int, hi as int)),
            sig == (if (j0 as int) < dm.len() {
                dm.skip(j0 as int)
            } else {
                Seq::<char>::empty()
            }),
            sig_lt(sig, max_finite_digits()) == sig_lt(
                sig_from(sig, j as int),
                max_finite_digits().skip(j as int),
            ),
        decreases 309 - j,
    {
        let have = j0 < dv.len() && j < dv.len() - j0;
        let sj: char = if have {
            dv[j0 + j]
        } else {
            '0'
        };
        let tj: char = thr.get_char(j);
        proof {
            assert(max_finite_digits().skip(j as int)[0] == max_finite_digits()[j as int]);
            if (j0 as int) + (j as int) < dm.len() {
                assert(sig_from(sig, j as int)[0] == sig[j as int]);
                assert(sig[j as int] == dm[j0 as int + j as int]);
            }
            lemma_sig_from_step(sig, j as int);
            assert(max_finite_digits().skip(j as int).drop_first() =~= max_finite_digits().skip(
                j as int + 1,
            ));
        }
        if sj != tj {
            return (sj as u32) < (tj as u32);
        }
        j = j + 1;
    }
    proof {
        assert(max_finite_digits().skip(309).len() == 0);
    }
    false
}

/// Whether the text from `lo` on is a decimal number, with an optional
/// exponent, whose value is a finite `f64`.
fn finite_number_from(v: &str, lo: usize) -> (r: bool)
    requires
        lo <= v@.len(),
    ensures
        r == is_finite_number_text(v@.skip(lo as int)),
{
    let ghost t = v@.skip(lo as int);
    let n = v.unicode_len();
    let k = find_in(v, lo, n, 'e', 'E');
    proof {
        assert(t =~= v@.subrange(lo as int, n as int));
        lemma_find_exp_slice(v@, lo as int, n as int, k as int);
    }
    let mhi = if k == n {
        n
    } else {
        k
    };
    let grammar_ok = if k == n {
        mantissa_in(v, lo, n)
    } else {
        let r1 = mantissa_in(v, lo, k);
        let r2 = exp_in(v, k + 1, n);
        proof {
            assert(t.take(k - lo) =~= v@.subrange(lo as int, k as int));
            assert(t.skip(k - lo + 1) =~= v@.subrange(k as int + 1, n as int));
        }
        r1 && r2
    };
    if !grammar_ok {
        return false;
    }
    let ghost m = v@.subrange(lo as int, mhi as int);
    proof {
        assert(mantissa_of(t) == m);
    }
    let z = find_nz_in(v, lo, mhi);
    proof {
        lemma_find_nonzero_slice(v@, lo as int, mhi as int, z as int);
    }
    if z == mhi {
        return true;
    }
    let d = find_in(v, lo, mhi, '.', '.');
    proof {
        lemma_find_dot_slice(v@, lo as int, mhi as int, d as int);
    }
    let ip: i128 = if d == mhi {
        (mhi - lo) as i128
    } else {
        (d - lo) as i128
    };
    let db: i128 = if d < z {
        (z - lo) as i128 - 1
    } else {
        (z - lo) as i128
    };
    let lead: i128 = ip - 1 - db;
    proof {
        assert(lead as int == lead_exp(m));
        assert(-0x20000000000000000 <= lead as int <= 0x20000000000000000);
    }
    let mag: i128 = if k == n {
        lead
    } else {
        exp_mag(v, k + 1, n, lead)
    };
    proof {
        assert(((mag as int) <= MAX_FINITE_EXP as int) == (magnitude_exp(t)
            <= MAX_FINITE_EXP as int));
        assert(((mag as int) == MAX_FINITE_EXP as int + 1) == (magnitude_exp(t)
            == MAX_FINITE_EXP as int + 1));
    }
    if mag <= MAX_FINITE_EXP as i128 {
        true
    } else if mag == MAX_FINITE_EXP as i128 + 1 {
        sig_below_max(v, lo, mhi)
    } else {
        false
    }
}

/// Whether `v` is accepted as a numeric field: an optional sign, then a
/// decimal number with an optional exponent, whose value parses to a
/// finite `f64` — strictly below 2^1024 - 2^970, where rounding reaches
/// infinity. The `inf`, `infinity` and `nan` spellings are rejected, as
/// is every text whose value rounds to plus or minus infinity.
pub fn is_num(v: &str) -> (r: bool)
    ensures
        r == is_finite_float_text(v@),
{
    let n = v.unicode_len();
    let mut start: usize = 0;
    if n >= 1 {
        let c0 = v.get_char(0);
        if c0 == '+' || c0 == '-' {
            start = 1;
        }
    }
    proof {
        assert(strip_sign(v@) =~= v@.skip(start as int));
    }
    finite_number_from(v, start)
}

} // verus!
