use n2::depfile::parse;
use n2::scanner::{format_parse_error, Scanner};

fn try_parse(buf: &mut Vec<u8>) -> Result<Vec<(String, Vec<String>)>, String> {
    buf.push(0);
    let mut scanner = Scanner::new(buf, 0);
    match parse(&mut scanner) {
        Ok(map) => Ok(map
            .into_iter()
            .into_iter()
            .map(|(k, v)| {
                (
                    String::from_utf8(k).unwrap(),
                    v.into_iter().map(|d| String::from_utf8(d).unwrap()).collect(),
                )
            })
            .collect()),
        Err(err) => Err(String::from_utf8(format_parse_error(0, buf, b"test", err)).unwrap()),
    }
}

fn must_parse(buf: &mut Vec<u8>) -> Vec<(String, Vec<String>)> {
    match try_parse(buf) {
        Err(err) => {
            println!("{}", err);
            panic!("failed parse");
        }
        Ok(d) => d,
    }
}

fn deps(entries: &[(&str, Vec<&str>)]) -> Vec<(String, Vec<String>)> {
    entries
        .iter()
        .map(|(k, v)| (k.to_string(), v.iter().map(|s| s.to_string()).collect()))
        .collect()
}

fn test_for_crlf(input: &str, test: fn(String)) {
    test(input.to_string());
}

#[test]
fn test_parse_simple() {
    test_for_crlf(
        "build/browse.o: src/browse.cc src/browse.h build/browse_py.h\n",
        |text| {
            let mut file = text.into_bytes();
            let d = must_parse(&mut file);
            assert_eq!(
                d,
                deps(&[(
                    "build/browse.o",
                    vec!["src/browse.cc", "src/browse.h", "build/browse_py.h",]
                )])
            );
        },
    );
}

#[test]
fn test_parse_space_suffix() {
    test_for_crlf("build/browse.o: src/browse.cc   \n", |text| {
        let mut file = text.into_bytes();
        let d = must_parse(&mut file);
        assert_eq!(d, deps(&[("build/browse.o", vec!["src/browse.cc",])]));
    });
}

#[test]
fn test_parse_multiline() {
    test_for_crlf(
        "build/browse.o: src/browse.cc\\\n  build/browse_py.h",
        |text| {
            let mut file = text.into_bytes();
            let d = must_parse(&mut file);
            assert_eq!(
                d,
                deps(&[("build/browse.o", vec!["src/browse.cc", "build/browse_py.h",])])
            );
        },
    );
}

#[test]
fn test_parse_without_final_newline() {
    let mut file = b"build/browse.o: src/browse.cc".to_vec();
    let d = must_parse(&mut file);
    assert_eq!(d, deps(&[("build/browse.o", vec!["src/browse.cc",])]));
}

#[test]
fn test_parse_spaces_before_colon() {
    let mut file = b"build/browse.o   : src/browse.cc".to_vec();
    let d = must_parse(&mut file);
    assert_eq!(d, deps(&[("build/browse.o", vec!["src/browse.cc",])]));
}

#[test]
fn test_parse_windows_dep_path() {
    let mut file = b"odd/path.o: C:/odd\\path.c".to_vec();
    let d = must_parse(&mut file);
    assert_eq!(d, deps(&[("odd/path.o", vec!["C:/odd\\path.c",])]));
}

#[test]
fn test_parse_multiple_targets() {
    let mut file = b"
out/a.o: src/a.c \\
  src/b.c

out/b.o :
"
    .to_vec();
    let d = must_parse(&mut file);
    assert_eq!(
        d,
        deps(&[("out/a.o", vec!["src/a.c", "src/b.c",]), ("out/b.o", vec![])])
    );
}

#[test]
fn test_parse_missing_colon() {
    let mut file = b"foo bar".to_vec();
    let err = try_parse(&mut file).unwrap_err();
    assert!(
        err.starts_with("parse error: expected ':'"),
        "expected parse error, got {:?}",
        err
    );
}

/// A target without a colon: the message names what was expected and what
/// stood there, and the rendered error points at it.
#[test]
fn missing_colon_message() {
    let buf = b"foo bar\0".to_vec();
    let mut scanner = Scanner::new(&buf, 0);
    let err = match parse(&mut scanner) {
        Err(e) => e,
        Ok(_) => panic!("expected a parse error"),
    };
    assert_eq!(err.msg, b"expected ':', got 'b'".to_vec());
    assert_eq!(err.ofs, 4);
    let text = String::from_utf8(format_parse_error(0, &buf, b"test", err)).unwrap();
    assert!(text.starts_with("parse error: expected ':', got 'b'\ntest:1: "), "{}", text);
}

/// A backslash that escapes no newline is refused.
#[test]
fn bad_backslash_message() {
    let buf = b"out: a \\x\n\0".to_vec();
    let mut scanner = Scanner::new(&buf, 0);
    let err = match parse(&mut scanner) {
        Err(e) => e,
        Ok(_) => panic!("expected a parse error"),
    };
    assert_eq!(err.msg, b"invalid backslash escape".to_vec());
}


/// What `expect` says when another byte stands where one was wanted: each
/// byte as Rust's debug formatting writes it as a character.
#[test]
fn expect_messages() {
    let cases: [(&[u8], u8, &str); 5] = [
        (b"x\0", b':', "expected ':', got 'x'"),
        (b"\n\0", b'=', "expected '=', got '\\n'"),
        (b"\x01\0", b'|', "expected '|', got '\\u{1}'"),
        (b"'\0", b'@', "expected '@', got '\\''"),
        (b"\xe9\0", b':', "expected ':', got '\u{e9}'"),
    ];
    for (buf, want, msg) in cases {
        let mut scanner = Scanner::new(buf, 0);
        let err = scanner.expect(want).unwrap_err();
        assert_eq!(String::from_utf8(err.msg).unwrap(), msg);
        assert_eq!(err.ofs, 0);
    }
    let mut scanner = Scanner::new(b"a\0", 0);
    scanner.next();
    let err = scanner.expect(b'b').unwrap_err();
    assert_eq!(String::from_utf8(err.msg).unwrap(), "expected 'b', got '\\0'");
}
