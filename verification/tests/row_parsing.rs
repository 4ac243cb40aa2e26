use carstats::rows::collect_records;
use carstats::rows::parse_record;

const GOOD: &str = "a,b,c,d,e,2015,f,1.6,120000,g,h,25000";

#[test]
fn accepts_well_formed_line() {
    let rec = parse_record(GOOD).expect("line should be accepted");
    assert_eq!(rec.mileage, "120000");
    assert_eq!(rec.year, "2015");
    assert_eq!(rec.engine_size, "1.6");
    assert_eq!(rec.price, "25000");
}

#[test]
fn accepts_regardless_of_other_positions() {
    let line = "??,!!,,  ,x y z,1999,###,2.0,5000,-,-,1";
    let rec = parse_record(line).expect("only the four schema fields matter");
    assert_eq!(rec.year, "1999");
    assert_eq!(rec.engine_size, "2.0");
    assert_eq!(rec.mileage, "5000");
    assert_eq!(rec.price, "1");
}

#[test]
fn rejects_too_few_fields() {
    assert!(parse_record("a,b,c,d,e,2015,f,1.6,120000,g,h").is_none());
    assert!(parse_record("").is_none());
    assert!(parse_record("1,2,3").is_none());
}

#[test]
fn accepts_extra_trailing_fields() {
    let line = "a,b,c,d,e,2015,f,1.6,120000,g,h,25000,extra,more";
    let rec = parse_record(line).expect("extra trailing fields are ignored");
    assert_eq!(rec.price, "25000");
}

#[test]
fn rejects_non_numeric_schema_fields() {
    assert!(parse_record("a,b,c,d,e,year,f,1.6,120000,g,h,25000").is_none());
    assert!(parse_record("a,b,c,d,e,2015,f,big,120000,g,h,25000").is_none());
    assert!(parse_record("a,b,c,d,e,2015,f,1.6,12k,g,h,25000").is_none());
    assert!(parse_record("a,b,c,d,e,2015,f,1.6,120000,g,h,$25000").is_none());
}

#[test]
fn rejects_non_finite_schema_fields() {
    assert!(parse_record("a,b,c,d,e,2015,f,inf,120000,g,h,25000").is_none());
    assert!(parse_record("a,b,c,d,e,2015,f,1.6,NaN,g,h,25000").is_none());
    assert!(parse_record("a,b,c,d,e,2015,f,1.6,120000,g,h,1e999").is_none());
    assert!(parse_record("a,b,c,d,e,2015,f,1.6,120000,g,h,-Infinity").is_none());
}

#[test]
fn trims_whitespace_in_schema_fields() {
    let line = "a,b,c,d,e,  2015\t,f, 1.6 ,\t120000,g,h,  25000  ";
    let rec = parse_record(line).expect("fields are trimmed before the numeric test");
    assert_eq!(rec.year, "2015");
    assert_eq!(rec.engine_size, "1.6");
    assert_eq!(rec.mileage, "120000");
    assert_eq!(rec.price, "25000");
}

#[test]
fn empty_schema_field_rejected() {
    assert!(parse_record("a,b,c,d,e,,f,1.6,120000,g,h,25000").is_none());
    // eleven commas: twelve fields, all empty
    assert!(parse_record(",,,,,,,,,,,").is_none());
}

#[test]
fn trims_unicode_white_space() {
    let line = "a,b,c,d,e,\u{00A0}2015\u{3000},f,\u{2009}1.6,120000\u{000B},g,h,25000";
    let rec = parse_record(line).expect("Unicode white space is trimmed");
    assert_eq!(rec.year, "2015");
    assert_eq!(rec.engine_size, "1.6");
    assert_eq!(rec.mileage, "120000");
}

#[test]
fn collect_skips_header_and_counts_rejections() {
    let lines: Vec<String> = vec![
        GOOD.to_string(), // header: never a record, never a rejection
        GOOD.to_string(),
        "short,line".to_string(),
        "a,b,c,d,e,2016,f,2.0,80000,g,h,30000".to_string(),
        "a,b,c,d,e,bad,f,2.0,80000,g,h,30000".to_string(),
    ];
    let (recs, skipped) = collect_records(&lines);
    assert_eq!(recs.len(), 2);
    assert_eq!(skipped, 2);
    assert_eq!(recs[0].year, "2015");
    assert_eq!(recs[1].year, "2016");
}

#[test]
fn collect_on_empty_and_header_only_input() {
    let (recs, skipped) = collect_records(&Vec::new());
    assert_eq!(recs.len(), 0);
    assert_eq!(skipped, 0);

    let (recs, skipped) = collect_records(&vec!["just,a,header".to_string()]);
    assert_eq!(recs.len(), 0);
    assert_eq!(skipped, 0);
}
