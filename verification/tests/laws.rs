use tsip_parser::{Address, Message, ParseError, Uri};

fn uri_twice(raw: &str) -> (Uri, String, Uri) {
    let a = Uri::parse(raw).expect("first parse");
    let text = a.to_string();
    let b = Uri::parse(&text).expect("second parse");
    (a, text, b)
}

#[test]
fn uri_round_trip_keeps_escaped_userinfo() {
    let (a, text, b) = uri_twice("sip:%40al%3Ai%20ce:p%3Bw%25@[2001:db8::1]:5060;Lr;x=a=b");
    assert_eq!(a.user.as_deref(), Some("@al:i ce"));
    assert_eq!(a.password.as_deref(), Some("p;w%"));
    assert_eq!(text, "sip:%40al%3Ai%20ce:p%3Bw%25@[2001:db8::1]:5060;lr;x=a%3db");
    assert_eq!(a.user, b.user);
    assert_eq!(a.password, b.password);
    assert_eq!(b.params, vec![("lr".into(), "".into()), ("x".into(), "a%3db".into())]);
    assert_eq!(b.to_string(), text);
    assert_eq!(Uri::parse(&b.to_string()).unwrap(), b);
}

#[test]
fn uri_round_trip_keeps_headers_and_odd_params() {
    let (a, text, b) = uri_twice("sip:h;<k=v;flag?h%26k=v%3D1&empty=&x=%0D");
    assert_eq!(a.params, vec![("<k".into(), "v".into()), ("flag".into(), "".into())]);
    assert_eq!(
        a.headers,
        vec![
            ("h&k".into(), "v=1".into()),
            ("empty".into(), "".into()),
            ("x".into(), "\r".into()),
        ]
    );
    assert_eq!(text, "sip:h;%3ck=v;flag?h%26k=v%3D1&empty=&x=%0D");
    assert_eq!(b.params, vec![("%3ck".into(), "v".into()), ("flag".into(), "".into())]);
    assert_eq!(b.headers, a.headers);
    assert_eq!(b.to_string(), text);
}

#[test]
fn uri_params_are_written_with_lowercase_escapes() {
    let u = Uri {
        scheme: "sip",
        user: Some("alice".into()),
        password: None,
        host: "host".into(),
        port: None,
        params: vec![("<evil>".into(), "1".into())],
        headers: vec![],
    };
    let mut buf = String::new();
    u.append_to(&mut buf);
    assert_eq!(buf, "sip:alice@host;%3cevil%3e=1");
    assert!(Uri::parse(&buf).is_ok());
    let v = Uri {
        params: vec![("a&b".into(), "x;y?z= %w".into())],
        ..Uri::parse("sip:h").unwrap()
    };
    assert_eq!(v.to_string(), "sip:h;a%26b=x%3by%3fz%3d %w");
}

#[test]
fn written_params_that_collide_merge_on_the_next_parse() {
    let (a, text, b) = uri_twice("sip:h;<=1;%3c=2");
    assert_eq!(a.params.len(), 2);
    assert_eq!(text, "sip:h;%3c=1;%3c=2");
    assert_eq!(b.params, vec![("%3c".into(), "2".into())]);
    assert_eq!(Uri::parse(&b.to_string()).unwrap(), b);
}

#[test]
fn unclosed_bracket_in_host_is_refused() {
    assert_eq!(Uri::parse("sip:[::1").unwrap_err(), ParseError::UnterminatedBracket);
    assert_eq!(Uri::parse_host_port("[::1").unwrap_err(), ParseError::UnterminatedBracket);
}

#[test]
fn unclosed_quote_in_display_name_is_refused() {
    assert_eq!(
        Address::parse(r#""Alice <sip:alice@h>"#).unwrap_err(),
        ParseError::UnterminatedQuote
    );
    assert_eq!(Address::parse(r#"" <sip:alice@h>"#).unwrap_err(), ParseError::UnterminatedQuote);
    let a = Address::parse(r#"Al"ice <sip:alice@h>"#).unwrap();
    assert_eq!(a.display_name.as_deref(), Some(r#"Al"ice"#));
}

#[test]
fn uri_round_trip_without_scheme_and_with_colon_host() {
    let (a, text, b) = uri_twice("a:b:c");
    assert_eq!(a.scheme, "sip");
    assert_eq!(a.host, "a:b:c");
    assert_eq!(text, "sip:[a:b:c]");
    assert_eq!(a, b);
}

#[test]
fn uri_port_is_written_without_leading_zeros() {
    let (a, text, b) = uri_twice("sip:h:0080");
    assert_eq!(a.port, Some(80));
    assert_eq!(text, "sip:h:80");
    assert_eq!(a, b);
}

#[test]
fn uri_port_too_large_stays_out_of_port() {
    let u = Uri::parse("sip:h:99999").unwrap();
    assert_eq!(u.host, "h");
    assert_eq!(u.port, None);
    assert_eq!(u.to_string(), "sip:h");
}

#[test]
fn uri_duplicate_header_keys_keep_first_place_last_value() {
    let u = Uri::parse("sip:h?a=1&b=2&a=3").unwrap();
    assert_eq!(u.headers, vec![("a".into(), "3".into()), ("b".into(), "2".into())]);
}

#[test]
fn pct_decoding_builds_text_from_bytes() {
    let u = Uri::parse("sip:%C3%A9t%C3%A9@h").unwrap();
    assert_eq!(u.user.as_deref(), Some("été"));
    assert_eq!(u.to_string(), "sip:été@h");
}

#[test]
fn pct_decoding_to_non_text_is_refused() {
    assert_eq!(Uri::parse("sip:%FF@h").unwrap_err(), ParseError::InvalidUtf8);
    assert_eq!(Uri::parse("sip:h?k=%C3").unwrap_err(), ParseError::InvalidUtf8);
}

#[test]
fn uri_host_with_angle_is_refused() {
    assert_eq!(Uri::parse("<sip:a@h>").unwrap_err(), ParseError::InvalidHost);
    assert_eq!(Uri::parse("sip:a@h h").unwrap_err(), ParseError::InvalidHost);
}

#[test]
fn uri_accessors_on_one_value() {
    let u = Uri::parse("sip:alice:pw@Host.Example:5060;transport=TCP").unwrap();
    assert_eq!(u.transport(), "tcp");
    assert_eq!(u.aor(), "sip:alice@Host.Example");
    assert_eq!(u.host_port(), "Host.Example:5060");
    assert_eq!(u.bracket_host(), "Host.Example");
    let v = Uri::parse("sip:[::1]").unwrap();
    assert_eq!(v.host_port(), "[::1]");
    assert_eq!(v.transport(), "");
}

#[test]
fn append_to_extends_the_buffer() {
    let u = Uri::parse("sips:bob@h;lr").unwrap();
    let mut buf = String::from("To: ");
    u.append_to(&mut buf);
    assert_eq!(buf, "To: sips:bob@h;lr");
}

#[test]
fn parse_range_gives_what_the_slice_gives() {
    let full = "xx<sip:alice@host:5060;lr?h=v>yy";
    let inner = &full[3..full.len() - 3];
    assert_eq!(Uri::parse_range(full, 3, full.len() - 3).unwrap(), Uri::parse(inner).unwrap());
}

fn address_twice(raw: &str) -> (Address, String, Address) {
    let a = Address::parse(raw).expect("first parse");
    let text = a.to_string();
    let b = Address::parse(&text).expect("second parse");
    (a, text, b)
}

#[test]
fn address_round_trip_of_bare_form_with_headers() {
    let (a, text, b) = address_twice("sip:a@h?x=y;transport=tcp;tag=1;q=0.5");
    assert_eq!(text, "<sip:a@h;transport=tcp?x=y>;tag=1;q=0.5");
    assert_eq!(a, b);
}

#[test]
fn address_round_trip_of_quoted_display_name() {
    let (a, text, b) = address_twice(r#"  "a "b" c"  <sip:x@y>;Foo;tag=t"#);
    assert_eq!(a.display_name.as_deref(), Some(r#"a "b" c"#));
    assert_eq!(text, r#""a "b" c" <sip:x@y>;foo;tag=t"#);
    assert_eq!(a, b);
}

#[test]
fn address_round_trip_of_unquoted_display_name() {
    let (a, text, b) = address_twice("Bob   <sip:bob@h>");
    assert_eq!(a.display_name.as_deref(), Some("Bob"));
    assert_eq!(text, r#""Bob" <sip:bob@h>"#);
    assert_eq!(a, b);
}

#[test]
fn bare_address_params_may_hold_question_marks_only_at_address_level() {
    let a = Address::parse("sip:h;tag=a?b").unwrap();
    assert_eq!(a.tag(), Some("a?b"));
    assert_eq!(Address::parse("sip:h;x=a?b").unwrap_err(), ParseError::InvalidHost);
    assert_eq!(Address::parse("sip:h;tag=a>b").unwrap_err(), ParseError::InvalidHost);
}

#[test]
fn set_tag_reads_back_and_keeps_other_params() {
    let mut a = Address::parse("<sip:a@h>;x=1;tag=old;y=2").unwrap();
    a.set_tag("new".into());
    assert_eq!(a.tag(), Some("new"));
    assert_eq!(
        a.params,
        vec![
            ("x".to_string(), "1".to_string()),
            ("tag".to_string(), "new".to_string()),
            ("y".to_string(), "2".to_string()),
        ]
    );
}

#[test]
fn body_is_cut_to_content_length() {
    let m = Message::parse(b"MESSAGE sip:a@h SIP/2.0\r\nContent-Length: 3\r\n\r\nhello").unwrap();
    assert_eq!(m.content_length(), Some(3));
    assert_eq!(m.body, b"hel".to_vec());
}

#[test]
fn short_body_is_kept_whole() {
    let m = Message::parse(b"MESSAGE sip:a@h SIP/2.0\r\nl: 10\r\n\r\nhi").unwrap();
    assert_eq!(m.content_length(), Some(10));
    assert_eq!(m.body, b"hi".to_vec());
}

#[test]
fn content_length_reads_through_unicode_white_space() {
    let raw = "OPTIONS sip:h SIP/2.0\r\nContent-Length: 2\u{a0}\r\n\r\nabc";
    let m = Message::parse(raw.as_bytes()).unwrap();
    assert_eq!(m.content_length(), Some(2));
    assert_eq!(m.body, b"ab".to_vec());
}

#[test]
fn canonical_header_names_are_fixed_points() {
    let a = Message::parse(b"OPTIONS sip:h SIP/2.0\r\nx-FOO-bar: 1\r\ncall-id: c\r\n\r\n").unwrap();
    let b = Message::parse(b"OPTIONS sip:h SIP/2.0\r\nX-Foo-Bar: 1\r\nCall-ID: c\r\n\r\n").unwrap();
    assert_eq!(a.headers, b.headers);
    assert_eq!(a.header("X-Foo-Bar"), Some("1"));
    assert_eq!(b.header("Call-ID"), Some("c"));
}

#[test]
fn error_messages_are_fixed_text() {
    assert_eq!(ParseError::InvalidHost.to_string(), "invalid byte in host, user or parameter");
    assert_eq!(ParseError::UnterminatedAngle.message(), "unterminated '<' in address");
}

#[test]
fn stored_header_names_parse_to_themselves() {
    let m = Message::parse(b"OPTIONS sip:h SIP/2.0\r\nf: a\r\nvIA: b\r\nx-foo-BAR: c\r\n\r\n").unwrap();
    let names: Vec<&str> = m.headers.iter().map(|(k, _)| k.as_str()).collect();
    assert_eq!(names, vec!["From", "Via", "X-Foo-Bar"]);
    let mut raw = String::from("OPTIONS sip:h SIP/2.0\r\n");
    for (k, v) in &m.headers {
        raw.push_str(&format!("{}: {}\r\n", k, v));
    }
    raw.push_str("\r\n");
    let again = Message::parse(raw.as_bytes()).unwrap();
    assert_eq!(again.headers, m.headers);
}

#[test]
fn parsed_uri_keys_are_lowercase_and_distinct() {
    let u = Uri::parse("SIP:h;A=1;b;a=2?X=1&x=2&X=3").unwrap();
    assert_eq!(u.scheme, "sip");
    assert_eq!(u.params, vec![("a".into(), "2".into()), ("b".into(), "".into())]);
    assert_eq!(u.headers, vec![("X".into(), "3".into()), ("x".into(), "2".into())]);
}

#[test]
fn bare_address_splits_params_by_key() {
    let a = Address::parse("sip:h;tag=1;x=2;Q=3;expires=4").unwrap();
    assert_eq!(a.display_name, None);
    assert_eq!(
        a.params,
        vec![
            ("tag".to_string(), "1".to_string()),
            ("q".to_string(), "3".to_string()),
            ("expires".to_string(), "4".to_string()),
        ]
    );
    assert_eq!(a.uri.unwrap().params, vec![("x".to_string(), "2".to_string())]);
}

#[test]
fn display_name_absent_only_without_text_before_angle() {
    assert_eq!(Address::parse("  <sip:h>").unwrap().display_name, None);
    assert_eq!(Address::parse("sip:h").unwrap().display_name, None);
    assert_eq!(Address::parse("x<sip:h>").unwrap().display_name.as_deref(), Some("x"));
}

#[test]
fn canonical_header_names_ignore_case() {
    let a = Message::parse(b"OPTIONS sip:h SIP/2.0\r\nCALL-id: 1\r\nI: 2\r\nx-A-b: 3\r\n\r\n").unwrap();
    let names: Vec<&str> = a.headers.iter().map(|(k, _)| k.as_str()).collect();
    assert_eq!(names, vec!["Call-ID", "Call-ID", "X-A-B"]);
}
