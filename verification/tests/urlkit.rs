use urlkit::{
    cmd, decode, encode, merge_params, parse, parse_reference, resolve, rewrite, serialize, trim,
    Command, Error, Options, Output, Overrides,
};

fn bv(s: &str) -> Vec<u8> {
    s.as_bytes().to_vec()
}

fn no_overrides() -> Overrides {
    Overrides {
        scheme: None,
        host: None,
        username: None,
        password: None,
        path: None,
        query: None,
        fragment: None,
    }
}

fn roundtrip(s: &str) -> String {
    let u = parse(&bv(s)).expect("parse");
    String::from_utf8(serialize(&u)).expect("utf8")
}

fn run(c: Command) -> Result<Vec<String>, Error> {
    match cmd(Options { debug: false, command: c })? {
        Output::Lines(ls) => Ok(ls
            .into_iter()
            .map(|l| String::from_utf8(l).expect("utf8"))
            .collect()),
        Output::Render { .. } => panic!("unexpected render output"),
    }
}

#[test]
fn parse_serialize_roundtrip_simple() {
    assert_eq!(roundtrip("https://example.com/a/b/c"), "https://example.com/a/b/c");
    assert_eq!(roundtrip("http://example.com"), "http://example.com/");
    assert_eq!(roundtrip("mailto:someone"), "mailto:someone");
    assert_eq!(roundtrip("file:/a/b"), "file:/a/b");
}

#[test]
fn parse_serialize_roundtrip_full() {
    let s = "https://user:pw@example.com:8080/a/b?x=1&y=2#frag";
    assert_eq!(roundtrip(s), s);
    // parse(serialize(parse(s))) == parse(s)
    let once = parse(&bv(s)).expect("parse");
    let twice = parse(&serialize(&once)).expect("reparse");
    assert_eq!(serialize(&once), serialize(&twice));
}

#[test]
fn parse_normalizes() {
    assert_eq!(roundtrip("HTTPS://example.com/a b"), "https://example.com/a%20b");
    assert_eq!(roundtrip("  https://example.com/x \n"), "https://example.com/x");
    assert_eq!(roundtrip("https://example.com/%2fkept"), "https://example.com/%2fkept");
}

#[test]
fn parse_ports() {
    let u = parse(&bv("http://example.com:8080/")).expect("parse");
    let a = u.authority.as_ref().expect("authority");
    assert_eq!(a.port, Some(8080));
    assert_eq!(roundtrip("http://example.com:00080/"), "http://example.com:80/");
    assert!(matches!(parse(&bv("http://example.com:99999/")), Err(Error::SyntaxError)));
    assert!(matches!(parse(&bv("http://example.com:12ab/")), Err(Error::SyntaxError)));
}

#[test]
fn parse_bracketed_host() {
    assert_eq!(roundtrip("http://[::1]:80/x"), "http://[::1]:80/x");
    assert_eq!(roundtrip("http://[::1]"), "http://[::1]/");
    assert!(matches!(parse(&bv("http://[::1]x/")), Err(Error::SyntaxError)));
}

#[test]
fn parse_rejects() {
    assert!(matches!(parse(&bv("")), Err(Error::SyntaxError)));
    assert!(matches!(parse(&bv("   \n")), Err(Error::SyntaxError)));
    assert!(matches!(parse(&bv("no-colon-here")), Err(Error::SyntaxError)));
    assert!(matches!(parse(&bv("1http://x/")), Err(Error::SyntaxError)));
    assert!(matches!(parse(&bv("http:///path")), Err(Error::SyntaxError)));
}

#[test]
fn reference_parses_empty() {
    let r = parse_reference(&bv("")).expect("empty reference");
    assert!(r.scheme.is_none());
    assert!(r.authority.is_none());
    assert_eq!(r.segments.len(), 0);
}

#[test]
fn resolve_identity_clears_query_and_fragment() {
    let base = parse(&bv("https://example.com/a/b?q=1#f")).expect("base");
    let r = resolve(&base, &bv("")).expect("resolve");
    assert_eq!(String::from_utf8(serialize(&r)).unwrap(), "https://example.com/a/b");
}

#[test]
fn resolve_relative_reference() {
    let base = parse(&bv("https://example.com/a/b/")).expect("base");
    let r = resolve(&base, &bv("../c?x=1")).expect("resolve");
    assert_eq!(String::from_utf8(serialize(&r)).unwrap(), "https://example.com/a/c?x=1");
}

#[test]
fn resolve_more_references() {
    let base = parse(&bv("https://example.com/a/b/c?old=1")).expect("base");
    let cases = [
        ("g", "https://example.com/a/b/g"),
        ("/g", "https://example.com/g"),
        ("//other.org/x", "https://other.org/x"),
        ("?y=2", "https://example.com/a/b/c?y=2"),
        ("#s", "https://example.com/a/b/c#s"),
        ("../../../g", "https://example.com/g"),
        ("./g/.", "https://example.com/a/b/g/"),
        ("ftp://h/x", "ftp://h/x"),
    ];
    for (reference, expected) in cases {
        let r = resolve(&base, &bv(reference)).expect("resolve");
        assert_eq!(String::from_utf8(serialize(&r)).unwrap(), expected, "for {}", reference);
    }
}

#[test]
fn resolve_requires_authority() {
    let base = parse(&bv("mailto:someone")).expect("base");
    assert!(matches!(resolve(&base, &bv("x")), Err(Error::MissingAuthority)));
}

#[test]
fn trim_scenario() {
    let u = parse(&bv("https://example.com/a/b/c")).expect("parse");
    let t = trim(&u, 2).expect("trim");
    assert_eq!(String::from_utf8(serialize(&t)).unwrap(), "https://example.com/a");
}

#[test]
fn trim_clamps_and_is_idempotent_beyond_length() {
    let u = parse(&bv("https://example.com/a/b/c")).expect("parse");
    let t3 = trim(&u, 3).expect("trim 3");
    let t4 = trim(&u, 4).expect("trim 4");
    assert_eq!(String::from_utf8(serialize(&t3)).unwrap(), "https://example.com/");
    assert_eq!(serialize(&t3), serialize(&t4));
    assert_eq!(t3.segments.len(), 0);
}

#[test]
fn trim_without_path_fails() {
    let u = parse(&bv("mailto:someone")).expect("parse");
    assert!(matches!(trim(&u, 1), Err(Error::InvalidArgument)));
}

#[test]
fn rewrite_scenario() {
    let u = parse(&bv("http://example.com/p")).expect("parse");
    let ov = Overrides {
        scheme: Some(bv("https")),
        host: Some(bv("other.com")),
        ..no_overrides()
    };
    let r = rewrite(&u, &ov).expect("rewrite");
    assert_eq!(String::from_utf8(serialize(&r)).unwrap(), "https://other.com/p");
}

#[test]
fn rewrite_validates() {
    let u = parse(&bv("http://example.com/p")).expect("parse");
    let bad_scheme = Overrides { scheme: Some(bv("9x")), ..no_overrides() };
    assert!(matches!(rewrite(&u, &bad_scheme), Err(Error::InvalidScheme)));
    let bad_host = Overrides { host: Some(bv("a/b")), ..no_overrides() };
    assert!(matches!(rewrite(&u, &bad_host), Err(Error::InvalidHost)));
    let m = parse(&bv("mailto:someone")).expect("parse");
    let user_no_auth = Overrides { username: Some(bv("u")), ..no_overrides() };
    assert!(matches!(rewrite(&m, &user_no_auth), Err(Error::InvalidArgument)));
}

#[test]
fn rewrite_sets_userinfo_and_creates_authority() {
    let u = parse(&bv("http://example.com/p")).expect("parse");
    let ov = Overrides { password: Some(bv("s3cret")), ..no_overrides() };
    let r = rewrite(&u, &ov).expect("rewrite");
    assert_eq!(String::from_utf8(serialize(&r)).unwrap(), "http://:s3cret@example.com/p");

    let m = parse(&bv("mailto:someone")).expect("parse");
    let ov2 = Overrides { host: Some(bv("example.org")), ..no_overrides() };
    let r2 = rewrite(&m, &ov2).expect("rewrite");
    assert_eq!(String::from_utf8(serialize(&r2)).unwrap(), "mailto://example.org/someone");
}

#[test]
fn rewrite_path_query_fragment() {
    let u = parse(&bv("http://example.com/p?q=1#f")).expect("parse");
    let ov = Overrides {
        path: Some(bv("/x/y z")),
        query: Some(bv("a=b")),
        fragment: Some(bv("top")),
        ..no_overrides()
    };
    let r = rewrite(&u, &ov).expect("rewrite");
    assert_eq!(String::from_utf8(serialize(&r)).unwrap(), "http://example.com/x/y%20z?a=b#top");
}

#[test]
fn encode_scenario() {
    let pairs: Vec<(Vec<u8>, Option<Vec<u8>>)> = vec![
        (bv("q"), Some(bv("hello world"))),
        (bv("flag"), None),
    ];
    let s = encode(&pairs);
    assert_eq!(String::from_utf8(s).unwrap(), "q=hello+world&flag");
}

#[test]
fn decode_encode_inverse() {
    let pairs: Vec<(Vec<u8>, Option<Vec<u8>>)> = vec![
        (bv("a"), Some(bv("1 2"))),
        (bv("b"), None),
        (bv("weird key"), Some(bv("x&y=z"))),
    ];
    let s = encode(&pairs);
    let back = decode(&s);
    assert_eq!(back, pairs);
}

#[test]
fn decode_splits_and_percent_decodes() {
    let ps = decode(&bv("a=1&b=hello+world&c=%41%2B&d"));
    assert_eq!(ps.len(), 4);
    assert_eq!(ps[0], (bv("a"), Some(bv("1"))));
    assert_eq!(ps[1], (bv("b"), Some(bv("hello world"))));
    assert_eq!(ps[2], (bv("c"), Some(bv("A+"))));
    assert_eq!(ps[3], (bv("d"), None));
    assert_eq!(decode(&bv("")).len(), 0);
    assert_eq!(decode(&bv("a&&b")).len(), 2);
}

#[test]
fn selective_decode() {
    let lines = run(Command::Decode {
        select: Some(vec![bv("a")]),
        query: bv("a=1&b=2&a=3"),
    })
    .expect("decode");
    assert_eq!(lines, vec!["1".to_string(), "3".to_string()]);
}

#[test]
fn selective_decode_comma_separated_keys() {
    let lines = run(Command::Decode {
        select: Some(vec![bv("a,b")]),
        query: bv("a=1&b=2&c=3"),
    })
    .expect("decode");
    assert_eq!(lines, vec!["1".to_string(), "2".to_string()]);
}

#[test]
fn decode_listing_pads_keys() {
    let lines = run(Command::Decode {
        select: None,
        query: bv("key=1&k=2"),
    })
    .expect("decode");
    assert_eq!(lines, vec!["key: 1".to_string(), "  k: 2".to_string()]);
}

#[test]
fn decode_strips_up_to_question_mark() {
    let lines = run(Command::Decode {
        select: Some(vec![bv("x")]),
        query: bv("https://example.com/p?x=1"),
    })
    .expect("decode");
    assert_eq!(lines, vec!["1".to_string()]);
}

#[test]
fn encode_merges_flags_over_positional() {
    let line = run(Command::Encode {
        keys: vec![bv("a")],
        values: vec![bv("9")],
        pairs: vec![bv("a=1"), bv("b=2")],
    })
    .expect("encode");
    assert_eq!(line, vec!["a=9&b=2".to_string()]);
}

#[test]
fn encode_unbalanced_flags_fail() {
    let r = merge_params(&vec![], &vec![bv("a")], &vec![]);
    assert_eq!(r, Err(Error::InvalidArgument));
}

#[test]
fn encode_last_write_wins_keeps_position() {
    let line = run(Command::Encode {
        keys: vec![],
        values: vec![],
        pairs: vec![bv("a=1"), bv("b=2"), bv("a=3"), bv("c")],
    })
    .expect("encode");
    assert_eq!(line, vec!["a=3&b=2&c".to_string()]);
}

#[test]
fn cmd_resolve_prints_one_line() {
    let lines = run(Command::Resolve {
        base: bv("https://example.com/a/b/"),
        url: bv("../c?x=1"),
    })
    .expect("resolve");
    assert_eq!(lines, vec!["https://example.com/a/c?x=1".to_string()]);
}

#[test]
fn cmd_trim_prints_one_line() {
    let lines = run(Command::Trim { count: 2, url: bv("https://example.com/a/b/c") })
        .expect("trim");
    assert_eq!(lines, vec!["https://example.com/a".to_string()]);
}

#[test]
fn cmd_rewrite_prints_one_line() {
    let ov = Overrides {
        scheme: Some(bv("https")),
        host: Some(bv("other.com")),
        ..no_overrides()
    };
    let lines = run(Command::Rewrite { overrides: ov, url: bv("http://example.com/p") })
        .expect("rewrite");
    assert_eq!(lines, vec!["https://other.com/p".to_string()]);
}

#[test]
fn cmd_format_exposes_fields() {
    let out = cmd(Options {
        debug: false,
        command: Command::Format {
            template: bv("{{scheme}} {{host}}"),
            url: bv("https://u:p@example.com:1/x/y?q=1#f"),
        },
    })
    .expect("format");
    match out {
        Output::Render { template, fields } => {
            assert_eq!(template, bv("{{scheme}} {{host}}"));
            assert_eq!(fields.scheme, bv("https"));
            assert_eq!(fields.host, bv("example.com"));
            assert_eq!(fields.username, bv("u"));
            assert_eq!(fields.password, bv("p"));
            assert_eq!(fields.path, bv("/x/y"));
            assert_eq!(fields.query, bv("q=1"));
            assert_eq!(fields.fragment, bv("f"));
        },
        Output::Lines(_) => panic!("expected render output"),
    }
}

#[test]
fn cmd_reports_errors() {
    let r = run(Command::Trim { count: 1, url: bv("not a url") });
    assert_eq!(r, Err(Error::SyntaxError));
    let r2 = run(Command::Resolve { base: bv("mailto:x"), url: bv("y") });
    assert_eq!(r2, Err(Error::MissingAuthority));
}

#[test]
fn error_messages_are_distinct() {
    let all = [
        Error::SyntaxError,
        Error::InvalidArgument,
        Error::MissingAuthority,
        Error::InvalidScheme,
        Error::InvalidHost,
        Error::IOFailure,
        Error::TemplateError,
    ];
    for (i, a) in all.iter().enumerate() {
        for (j, b) in all.iter().enumerate() {
            if i != j {
                assert_ne!(a.message(), b.message());
            }
        }
    }
}

#[test]
fn userinfo_roundtrip() {
    assert_eq!(roundtrip("http://u@h/x"), "http://u@h/x");
    assert_eq!(roundtrip("http://u:p@h/x"), "http://u:p@h/x");
    assert_eq!(roundtrip("http://:p@h/x"), "http://:p@h/x");
}

#[test]
fn trailing_slash_segments_are_kept() {
    assert_eq!(roundtrip("https://example.com/a/b/"), "https://example.com/a/b/");
    let u = parse(&bv("https://example.com/a/b/")).expect("parse");
    assert_eq!(u.segments.len(), 3);
    assert_eq!(u.segments[2].len(), 0);
}

#[test]
fn port_boundaries() {
    assert_eq!(roundtrip("http://h:65535/"), "http://h:65535/");
    assert_eq!(roundtrip("http://h:0/"), "http://h:0/");
    assert!(matches!(parse(&bv("http://h:65536/")), Err(Error::SyntaxError)));
}

#[test]
fn rewrite_encodes_userinfo() {
    let u = parse(&bv("http://example.com/p")).expect("parse");
    let ov = Overrides {
        username: Some(bv("a b@c")),
        ..no_overrides()
    };
    let r = rewrite(&u, &ov).expect("rewrite");
    assert_eq!(String::from_utf8(serialize(&r)).unwrap(), "http://a%20b%40c@example.com/p");
}

#[test]
fn selective_decode_bare_key_prints_empty_line() {
    let lines = run(Command::Decode {
        select: Some(vec![bv("flag")]),
        query: bv("a=1&flag&b=2"),
    })
    .expect("decode");
    assert_eq!(lines, vec!["".to_string()]);
}

#[test]
fn fragment_keeps_later_hashes() {
    assert_eq!(roundtrip("https://example.com/x#a#b"), "https://example.com/x#a#b");
    let u = parse(&bv("https://example.com/x#a#b")).expect("parse");
    assert_eq!(u.fragment, Some(bv("a#b")));
}

#[test]
fn query_is_kept_raw_but_fenced() {
    let u = parse(&bv("https://example.com/x?a=1&b=%32")).expect("parse");
    assert_eq!(u.query, Some(bv("a=1&b=%32")));
    assert_eq!(roundtrip("https://example.com/x?a=1&b=%32"), "https://example.com/x?a=1&b=%32");
}
