use tide_headers::defaults::DefaultHeaders;
use tide_headers::headers::{HeaderMap, HeaderName, HeaderValue};

fn name(s: &str) -> HeaderName {
    HeaderName::parse(&s.as_bytes().to_vec()).expect("valid header name")
}

fn value(s: &str) -> HeaderValue {
    HeaderValue::parse(&s.as_bytes().to_vec()).expect("valid header value")
}

fn set_header(m: &mut HeaderMap, n: &str, v: &str) {
    m.append(&name(n), &v.as_bytes().to_vec());
}

fn pairs(m: &HeaderMap) -> Vec<(String, String)> {
    let mut out = Vec::new();
    let mut i = 0;
    while i < m.len() {
        out.push((
            String::from_utf8(m.name_at(i).clone()).expect("utf-8 name"),
            String::from_utf8(m.value_at(i).clone()).expect("utf-8 value"),
        ));
        i += 1;
    }
    out
}

fn owned(pairs: &[(&str, &str)]) -> Vec<(String, String)> {
    pairs.iter().map(|(n, v)| (n.to_string(), v.to_string())).collect::<Vec<_>>()
}

#[test]
fn scenario_a_fill_in_when_handler_sets_nothing() {
    let d = DefaultHeaders::new().header(name("X-Frame-Options"), value("DENY"));
    let mut m = HeaderMap::new();
    d.apply(&mut m);
    assert_eq!(pairs(&m), owned(&[("x-frame-options", "DENY")]));
}

#[test]
fn scenario_b_handler_value_wins() {
    let d = DefaultHeaders::new().header(name("X-Frame-Options"), value("DENY"));
    let mut m = HeaderMap::new();
    set_header(&mut m, "X-Frame-Options", "SAMEORIGIN");
    d.apply(&mut m);
    assert_eq!(pairs(&m), owned(&[("x-frame-options", "SAMEORIGIN")]));
}

#[test]
fn scenario_c_two_default_values_both_applied_in_order() {
    let d = DefaultHeaders::new()
        .header(name("Set-Cookie"), value("a=1"))
        .header(name("Set-Cookie"), value("b=2"));
    let mut m = HeaderMap::new();
    d.apply(&mut m);
    assert_eq!(pairs(&m), owned(&[("set-cookie", "a=1"), ("set-cookie", "b=2")]));
}

#[test]
fn scenario_d_existing_name_suppresses_all_defaults_for_it() {
    let d = DefaultHeaders::new().header(name("Set-Cookie"), value("a=1"));
    let mut m = HeaderMap::new();
    set_header(&mut m, "Set-Cookie", "session=xyz");
    d.apply(&mut m);
    assert_eq!(pairs(&m), owned(&[("set-cookie", "session=xyz")]));
}

#[test]
fn non_clobber_keeps_every_handler_value() {
    let d = DefaultHeaders::new()
        .header(name("Set-Cookie"), value("d1"))
        .header(name("Set-Cookie"), value("d2"));
    let mut m = HeaderMap::new();
    set_header(&mut m, "Set-Cookie", "h1");
    set_header(&mut m, "Other", "x");
    set_header(&mut m, "Set-Cookie", "h2");
    d.apply(&mut m);
    assert_eq!(
        pairs(&m),
        owned(&[("set-cookie", "h1"), ("other", "x"), ("set-cookie", "h2")]),
    );
}

#[test]
fn fill_in_several_names_in_configuration_order() {
    let d = DefaultHeaders::new()
        .header(name("X-Frame-Options"), value("DENY"))
        .header(name("X-Content-Type-Options"), value("nosniff"));
    let mut m = HeaderMap::new();
    set_header(&mut m, "Content-Type", "text/plain");
    d.apply(&mut m);
    assert_eq!(
        pairs(&m),
        owned(&[
            ("content-type", "text/plain"),
            ("x-frame-options", "DENY"),
            ("x-content-type-options", "nosniff"),
        ]),
    );
}

#[test]
fn merge_twice_equals_merge_once() {
    let d = DefaultHeaders::new()
        .header(name("X-Frame-Options"), value("DENY"))
        .header(name("Set-Cookie"), value("a=1"))
        .header(name("Set-Cookie"), value("b=2"));
    let mut once = HeaderMap::new();
    set_header(&mut once, "X-Frame-Options", "SAMEORIGIN");
    set_header(&mut once, "Server", "x");
    let mut twice = HeaderMap::new();
    set_header(&mut twice, "X-Frame-Options", "SAMEORIGIN");
    set_header(&mut twice, "Server", "x");
    d.apply(&mut once);
    d.apply(&mut twice);
    d.apply(&mut twice);
    assert_eq!(pairs(&once), pairs(&twice));
}

#[test]
fn handler_headers_keep_positions_and_order() {
    let d = DefaultHeaders::new()
        .header(name("A"), value("da"))
        .header(name("X"), value("dx"));
    let mut m = HeaderMap::new();
    set_header(&mut m, "B", "1");
    set_header(&mut m, "A", "2");
    set_header(&mut m, "B", "3");
    let before = pairs(&m);
    d.apply(&mut m);
    let after = pairs(&m);
    assert!(after.len() >= before.len());
    assert_eq!(&after[..before.len()], &before[..]);
    assert_eq!(
        after,
        owned(&[("b", "1"), ("a", "2"), ("b", "3"), ("x", "dx")]),
    );
}

#[test]
fn empty_set_changes_nothing() {
    let d = DefaultHeaders::new();
    let mut m = HeaderMap::new();
    set_header(&mut m, "Content-Type", "text/html");
    set_header(&mut m, "Set-Cookie", "a=1");
    let before = pairs(&m);
    d.apply(&mut m);
    assert_eq!(pairs(&m), before);

    let mut empty = HeaderMap::new();
    d.apply(&mut empty);
    assert_eq!(empty.len(), 0);
}

#[test]
fn builder_groups_repeated_names_ahead_of_later_names() {
    let d = DefaultHeaders::new()
        .header(name("A"), value("1"))
        .header(name("B"), value("2"))
        .header(name("A"), value("3"));
    let mut m = HeaderMap::new();
    d.apply(&mut m);
    assert_eq!(pairs(&m), owned(&[("a", "1"), ("a", "3"), ("b", "2")]));
}

#[test]
fn name_parse_lowercases() {
    let n = name("X-Frame-Options");
    assert_eq!(n.as_bytes().as_slice(), b"x-frame-options");
}

#[test]
fn name_parse_accepts_token_characters() {
    assert!(HeaderName::parse(&b"x-custom_header.v1~ok".to_vec()).is_some());
    assert!(HeaderName::parse(&b"!#$%&'*+-.^_`|~09AZaz".to_vec()).is_some());
}

#[test]
fn name_parse_rejects_invalid() {
    assert!(HeaderName::parse(&b"".to_vec()).is_none());
    assert!(HeaderName::parse(&b"bad name".to_vec()).is_none());
    assert!(HeaderName::parse(&b"bad:name".to_vec()).is_none());
    assert!(HeaderName::parse(&b"bad/name".to_vec()).is_none());
    assert!(HeaderName::parse(&b"tab\tname".to_vec()).is_none());
    assert!(HeaderName::parse(&vec![0x80u8]).is_none());
    assert!(HeaderName::parse(&vec![0x00u8]).is_none());
}

#[test]
fn value_parse_accepts_visible_ascii_space_and_tab() {
    let v = HeaderValue::parse(&b"max-age=31536000; includeSubDomains\tend".to_vec())
        .expect("valid value");
    assert_eq!(
        v.as_bytes().as_slice(),
        b"max-age=31536000; includeSubDomains\tend",
    );
    assert!(HeaderValue::parse(&b"".to_vec()).is_some());
}

#[test]
fn value_parse_rejects_control_and_non_ascii_bytes() {
    assert!(HeaderValue::parse(&vec![0x00u8]).is_none());
    assert!(HeaderValue::parse(&b"line\nbreak".to_vec()).is_none());
    assert!(HeaderValue::parse(&b"carriage\rreturn".to_vec()).is_none());
    assert!(HeaderValue::parse(&vec![0x7fu8]).is_none());
    assert!(HeaderValue::parse(&vec![0x80u8]).is_none());
}

#[test]
fn append_and_contains_name() {
    let mut m = HeaderMap::new();
    assert!(!m.contains_name(&name("Content-Type")));
    set_header(&mut m, "Content-Type", "text/plain");
    assert!(m.contains_name(&name("Content-Type")));
    assert!(m.contains_name(&name("CONTENT-TYPE")));
    assert!(!m.contains_name(&name("Content-Length")));
    assert_eq!(m.len(), 1);
    assert_eq!(m.name_at(0).as_slice(), b"content-type");
    assert_eq!(m.value_at(0).as_slice(), b"text/plain");
}
