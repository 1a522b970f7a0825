use sitegen::numeral::{parse_dec, to_dec};

fn cv(s: &str) -> Vec<char> {
    s.chars().collect()
}

fn cs(v: &[char]) -> String {
    v.iter().collect()
}

fn parse_all(s: &str) -> Option<u64> {
    let v = cv(s);
    let n = v.len();
    parse_dec(&v, 0, n)
}

#[test]
fn renders_zero() {
    assert_eq!(cs(&to_dec(0)), "0");
}

#[test]
fn renders_and_parses_largest() {
    let digits = to_dec(u64::MAX);
    assert_eq!(cs(&digits), "18446744073709551615");
    let n = digits.len();
    assert_eq!(parse_dec(&digits, 0, n), Some(u64::MAX));
}

#[test]
fn parses_plain_number() {
    assert_eq!(parse_all("1700000000"), Some(1_700_000_000));
}

#[test]
fn accepts_leading_zeros() {
    assert_eq!(parse_all("007"), Some(7));
}

#[test]
fn rejects_empty_and_junk() {
    assert_eq!(parse_all(""), None);
    assert_eq!(parse_all("12a"), None);
    assert_eq!(parse_all("-3"), None);
    assert_eq!(parse_all("18446744073709551616"), None);
}
