use sitegen::resolve::{resolve, Partials, ResolveError};

fn cv(s: &str) -> Vec<char> {
    s.chars().collect()
}

fn cs(v: &[char]) -> String {
    v.iter().collect()
}

#[test]
fn expands_partial() {
    let mut p = Partials::new();
    p.add(cv("name.html"), cv("World"));
    let out = resolve(&cv("Hello {% name.html %}!"), &p, 16).unwrap();
    assert_eq!(cs(&out), "Hello World!");
}

#[test]
fn identity_without_directive() {
    let p = Partials::new();
    let text = "<html><body>nothing special { } % here</body></html>";
    let out = resolve(&cv(text), &p, 16).unwrap();
    assert_eq!(cs(&out), text);
}

#[test]
fn identity_on_empty_text() {
    let p = Partials::new();
    let out = resolve(&cv(""), &p, 16).unwrap();
    assert_eq!(cs(&out), "");
}

#[test]
fn nested_partials() {
    let mut p = Partials::new();
    p.add(cv("b.html"), cv("<b>{% c.html %}</b>"));
    p.add(cv("c.html"), cv("deep"));
    let out = resolve(&cv("A {% b.html %} Z"), &p, 16).unwrap();
    assert_eq!(cs(&out), "A <b>deep</b> Z");
}

#[test]
fn missing_partial_fails() {
    let p = Partials::new();
    let r = resolve(&cv("Hello {% absent.html %}!"), &p, 16);
    assert_eq!(r.unwrap_err(), ResolveError::MissingPartial);
}

#[test]
fn missing_partial_inside_partial_fails() {
    let mut p = Partials::new();
    p.add(cv("b.html"), cv("<b>{% c.html %}</b>"));
    let r = resolve(&cv("A {% b.html %} Z"), &p, 16);
    assert_eq!(r.unwrap_err(), ResolveError::MissingPartial);
}

#[test]
fn unmatched_close_marker_fails() {
    let p = Partials::new();
    let r = resolve(&cv("abc %} def"), &p, 16);
    assert_eq!(r.unwrap_err(), ResolveError::UnmatchedMarker);
}

#[test]
fn self_reference_hits_depth_limit() {
    let mut p = Partials::new();
    p.add(cv("loop.html"), cv("again {% loop.html %}"));
    let r = resolve(&cv("{% loop.html %}"), &p, 8);
    assert_eq!(r.unwrap_err(), ResolveError::DepthLimit);
}

#[test]
fn directive_name_is_trimmed() {
    let mut p = Partials::new();
    p.add(cv("name.html"), cv("World"));
    let out = resolve(&cv("Hello {%   name.html\t%}!"), &p, 16).unwrap();
    assert_eq!(cs(&out), "Hello World!");
}

#[test]
fn several_directives_in_one_page() {
    let mut p = Partials::new();
    p.add(cv("a.html"), cv("one"));
    p.add(cv("b.html"), cv("two"));
    let out = resolve(&cv("[{% a.html %}|{% b.html %}]"), &p, 16).unwrap();
    assert_eq!(cs(&out), "[one|two]");
}

#[test]
fn partial_with_multibyte_text() {
    let mut p = Partials::new();
    p.add(cv("name.html"), cv("Wörld 🌍"));
    let out = resolve(&cv("Hällo {% name.html %}!"), &p, 16).unwrap();
    assert_eq!(cs(&out), "Hällo Wörld 🌍!");
}

#[test]
fn store_lookup() {
    let mut p = Partials::new();
    p.add(cv("x"), cv("1"));
    assert!(p.has(&cv("x")));
    assert!(!p.has(&cv("y")));
    assert_eq!(cs(p.find(&cv("x")).unwrap()), "1");
}
