use carstats::numeric::is_num;

#[test]
fn test_is_num() {
    assert!(is_num("789"));
    assert!(is_num("1.2345"));
    assert!(!is_num("world"));
    assert!(!is_num("9c10"));
    assert!(is_num("-987.654"));
}

#[test]
fn test_is_num_signs_and_dots() {
    assert!(is_num("+42"));
    assert!(is_num("-0"));
    assert!(is_num(".5"));
    assert!(is_num("5."));
    assert!(is_num("-.5"));
    assert!(is_num("+5."));
    assert!(!is_num("."));
    assert!(!is_num("+"));
    assert!(!is_num("-"));
    assert!(!is_num("+."));
    assert!(!is_num("1.2.3"));
    assert!(!is_num("--1"));
    assert!(!is_num("1-"));
    assert!(!is_num(""));
}

#[test]
fn test_is_num_exponents() {
    assert!(is_num("1e5"));
    assert!(is_num("1E5"));
    assert!(is_num("1.5e-3"));
    assert!(is_num("2e+10"));
    assert!(is_num("5.e3"));
    assert!(is_num(".5e3"));
    assert!(!is_num("e5"));
    assert!(!is_num("1e"));
    assert!(!is_num("1e+"));
    assert!(!is_num("1e5e3"));
    assert!(!is_num("1e1.5"));
}

#[test]
fn test_is_num_rejects_non_finite_spellings() {
    assert!(!is_num("inf"));
    assert!(!is_num("Inf"));
    assert!(!is_num("INF"));
    assert!(!is_num("-inf"));
    assert!(!is_num("infinity"));
    assert!(!is_num("INFINITY"));
    assert!(!is_num("+Infinity"));
    assert!(!is_num("nan"));
    assert!(!is_num("NaN"));
    assert!(!is_num("-NAN"));
    assert!(!is_num("infin"));
    assert!(!is_num("na"));
}

// The smallest decimal value that rounds to infinity: 2^1024 - 2^970.
const ROUNDING_THRESHOLD: &str = "179769313486231580793728971405303415079934132710037826936173778980444968292764750946649017977587207096330286416692887910946555547851940402630657488671505820681908902000708383676273854845817711531764475730270069855571366959622842914819860834936475292719074168444365510704342711559699508093042880177904174497792";

#[test]
fn test_is_num_magnitude_bound() {
    // finite values: accepted, up to f64::MAX itself
    assert!(is_num("1e307"));
    assert!(is_num("9.99e307"));
    assert!(is_num("0.0001e311")); // equals 1e307
    assert!(is_num(&"9".repeat(308))); // below 1e308
    assert!(is_num("00007")); // leading zeros carry no weight
    assert!(is_num(&format!("{}7", "0".repeat(400))));
    assert!(is_num("1e308"));
    assert!(is_num("1000e305"));
    assert!(is_num("1.5e308"));
    assert!(is_num("1.7976931348623157e308")); // f64::MAX
    assert!(is_num(&format!("{:.0}", f64::MAX)));
    // values that round to infinity: rejected
    assert!(!is_num("1.7976931348623159e308"));
    assert!(!is_num("1e309"));
    assert!(!is_num("1e999"));
    assert!(!is_num("-1e999"));
    assert!(!is_num("2e308"));
    assert!(!is_num(&format!("1{}", "0".repeat(309)))); // 310 integer digits
    assert!(!is_num(&format!("1e{}", "9".repeat(30)))); // huge exponent
    // the rounding threshold itself reaches infinity (ties to even)
    assert!(!is_num(ROUNDING_THRESHOLD));
    // one below it is the largest accepted integer text
    let mut below = ROUNDING_THRESHOLD.to_string();
    below.replace_range(below.len() - 1.., "1");
    assert!(is_num(&below));
    // extra digits after an equal prefix push the value over
    assert!(!is_num(&format!("0.{}5e309", ROUNDING_THRESHOLD)));
    assert!(is_num(&format!("0.{}999e309", below)));
    // tiny magnitudes underflow to finite values: accepted
    assert!(is_num("1e-999"));
    assert!(is_num(&format!("1e-{}", "9".repeat(30))));
    // a zero value is finite whatever its exponent
    assert!(is_num("0e999"));
    assert!(is_num("0.000e999"));
    assert!(is_num(&format!("0e{}", "9".repeat(40))));
}

#[test]
fn test_is_num_whitespace_not_trimmed() {
    assert!(!is_num(" 1"));
    assert!(!is_num("1 "));
    assert!(!is_num(" 1 "));
    assert!(!is_num("1 2"));
}

// `is_num` agrees with "parses as a finite f64" on every input,
// including the rounding boundary itself.
#[test]
fn test_is_num_agrees_with_finite_parse() {
    let cases = [
        "789", "1.2345", "world", "9c10", "-987.654", "+42", "-0", ".5", "5.", "-.5", "+5.", ".",
        "+", "-", "+.", "1.2.3", "--1", "1-", "", "1e5", "1E5", "1.5e-3", "2e+10", "5.e3", ".5e3",
        "e5", "1e", "1e+", "1e5e3", "1e1.5", "inf", "Inf", "INF", "-inf", "infinity", "INFINITY",
        "+Infinity", "nan", "NaN", "-NAN", "infin", "na", " 1", "1 ", "1 2", "0x10", "1_000",
        "1,000", "12345678901234567890", "1e307", "-9.99e307", "1e308", "1.5e308", "1000e305",
        "1.7976931348623157e308", "1.7976931348623159e308", "1e309", "2e308", "1e999", "-1e999",
        "-1e-999", "0e999", "0.000000000000000000001",
    ];
    for s in cases {
        let finite = s.parse::<f64>().map(|x| x.is_finite()).unwrap_or(false);
        assert_eq!(is_num(s), finite, "disagreement on {:?}", s);
    }
    let mut below = ROUNDING_THRESHOLD.to_string();
    below.replace_range(below.len() - 1.., "1");
    let constructed = vec![
        ROUNDING_THRESHOLD.to_string(),
        below.clone(),
        format!("0.{}999e309", below),
        format!("0.{}5e309", ROUNDING_THRESHOLD),
        format!("{}5", ROUNDING_THRESHOLD),
        format!("-{}", ROUNDING_THRESHOLD),
        format!("-{}", below),
        "1".repeat(309),
        "9".repeat(309),
        format!("{:.0}", f64::MAX),
    ];
    for s in &constructed {
        let finite = s.parse::<f64>().map(|x| x.is_finite()).unwrap_or(false);
        assert_eq!(is_num(s), finite, "disagreement on {:?}", s);
    }
}
