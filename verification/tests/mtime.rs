use sitegen::mtime::{parse_mtimes, MtimeCache};

fn cv(s: &str) -> Vec<char> {
    s.chars().collect()
}

fn cs(v: &[char]) -> String {
    v.iter().collect()
}

#[test]
fn save_load_round_trip() {
    let mut c = MtimeCache::new();
    c.record(cv("src/a.html"), 17);
    c.record(cv("src/b.css"), 0);
    c.record(cv("src/sub/c.txt"), u64::MAX);
    let text = c.render_mtimes();
    let back = parse_mtimes(&text).unwrap();
    assert_eq!(back.lookup(&cv("src/a.html")), Some(17));
    assert_eq!(back.lookup(&cv("src/b.css")), Some(0));
    assert_eq!(back.lookup(&cv("src/sub/c.txt")), Some(u64::MAX));
    assert_eq!(back.lookup(&cv("src/other")), None);
}

#[test]
fn load_is_order_independent() {
    let a = parse_mtimes(&cv("x 1\ny 2\n")).unwrap();
    let b = parse_mtimes(&cv("y 2\nx 1\n")).unwrap();
    assert_eq!(a.lookup(&cv("x")), b.lookup(&cv("x")));
    assert_eq!(a.lookup(&cv("y")), b.lookup(&cv("y")));
}

#[test]
fn parse_accepts_missing_trailing_line_break() {
    let c = parse_mtimes(&cv("a 5")).unwrap();
    assert_eq!(c.lookup(&cv("a")), Some(5));
}

#[test]
fn parse_of_empty_text_is_empty() {
    let c = parse_mtimes(&cv("")).unwrap();
    assert_eq!(c.lookup(&cv("a")), None);
}

#[test]
fn parse_rejects_line_without_space() {
    assert!(parse_mtimes(&cv("justapath\n")).is_none());
}

#[test]
fn parse_rejects_extra_token() {
    assert!(parse_mtimes(&cv("a 1 2\n")).is_none());
}

#[test]
fn parse_rejects_bad_number() {
    assert!(parse_mtimes(&cv("a 12x\n")).is_none());
    assert!(parse_mtimes(&cv("a \n")).is_none());
    assert!(parse_mtimes(&cv("a 99999999999999999999\n")).is_none());
}

#[test]
fn parse_keeps_last_of_duplicate_paths() {
    let c = parse_mtimes(&cv("a 1\na 2\n")).unwrap();
    assert_eq!(c.lookup(&cv("a")), Some(2));
}

#[test]
fn record_overwrites() {
    let mut c = MtimeCache::new();
    c.record(cv("p"), 1);
    c.record(cv("p"), 9);
    assert_eq!(c.lookup(&cv("p")), Some(9));
    assert_eq!(cs(&c.render_mtimes()), "p 9\n");
}

#[test]
fn render_format_is_one_line_per_entry() {
    let mut c = MtimeCache::new();
    c.record(cv("a"), 1);
    c.record(cv("b"), 2);
    assert_eq!(cs(&c.render_mtimes()), "a 1\nb 2\n");
}
