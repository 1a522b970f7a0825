use sitegen::file::{get_file_name, visit_file, FileAction};
use sitegen::mtime::MtimeCache;

fn cv(s: &str) -> Vec<char> {
    s.chars().collect()
}

#[test]
fn unchanged_file_is_skipped() {
    let mut c = MtimeCache::new();
    c.record(cv("src/a.txt"), 5);
    let a = visit_file(&mut c, cv("src/a.txt"), 5, false, true, false);
    assert_eq!(a, FileAction::Skip);
    assert_eq!(c.lookup(&cv("src/a.txt")), Some(5));
}

#[test]
fn changed_file_is_copied() {
    let mut c = MtimeCache::new();
    c.record(cv("src/a.txt"), 5);
    let a = visit_file(&mut c, cv("src/a.txt"), 6, false, true, false);
    assert_eq!(a, FileAction::CopyRaw);
    assert_eq!(c.lookup(&cv("src/a.txt")), Some(6));
}

#[test]
fn first_visit_copies() {
    let mut c = MtimeCache::new();
    let a = visit_file(&mut c, cv("src/new.txt"), 7, false, false, false);
    assert_eq!(a, FileAction::CopyRaw);
    assert_eq!(c.lookup(&cv("src/new.txt")), Some(7));
}

#[test]
fn changed_html_is_expanded() {
    let mut c = MtimeCache::new();
    let a = visit_file(&mut c, cv("src/p.html"), 3, true, false, false);
    assert_eq!(a, FileAction::ExpandHtml);
}

#[test]
fn missing_destination_copies_even_when_unchanged() {
    let mut c = MtimeCache::new();
    c.record(cv("src/a.txt"), 5);
    let a = visit_file(&mut c, cv("src/a.txt"), 5, false, false, false);
    assert_eq!(a, FileAction::CopyRaw);
}

#[test]
fn force_rewrites_unmodified_html() {
    let mut c = MtimeCache::new();
    c.record(cv("src/p.html"), 5);
    let a = visit_file(&mut c, cv("src/p.html"), 5, true, true, true);
    assert_eq!(a, FileAction::ExpandHtml);
}

#[test]
fn force_still_skips_unmodified_plain_file() {
    let mut c = MtimeCache::new();
    c.record(cv("src/a.css"), 5);
    let a = visit_file(&mut c, cv("src/a.css"), 5, false, true, true);
    assert_eq!(a, FileAction::Skip);
}

#[test]
fn second_run_is_idempotent_per_file() {
    let mut c = MtimeCache::new();
    let first = visit_file(&mut c, cv("src/p.html"), 11, true, false, false);
    assert_eq!(first, FileAction::ExpandHtml);
    let second = visit_file(&mut c, cv("src/p.html"), 11, true, true, false);
    assert_eq!(second, FileAction::Skip);
    assert_eq!(c.lookup(&cv("src/p.html")), Some(11));
}

#[test]
fn file_name_of_nested_path() {
    assert_eq!(get_file_name("foo/bar/baz.html"), "baz.html");
}

#[test]
fn file_name_of_bare_name() {
    assert_eq!(get_file_name("name.css"), "name.css");
}

#[test]
fn file_name_of_directory_path() {
    assert_eq!(get_file_name("foo/bar/"), "bar");
}

#[test]
fn file_name_ignores_trailing_separators() {
    assert_eq!(get_file_name("/usr/bin/"), "bin");
    assert_eq!(get_file_name("x//"), "x");
}
