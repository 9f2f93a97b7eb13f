use polite_c::cli::{Candidate, CFileLocation, CFileLocationParseError, CFileLocationPos};
use polite_c::diagnostics::make_ascii_title_case;

#[test]
fn parse_symbol() {
    let l = CFileLocation::from_str("file.c#function").unwrap();
    assert_eq!(l.file, "file.c");
    assert_eq!(l.pos, CFileLocationPos::Symbol { name: "function".to_string(), index: 0 });
}

#[test]
fn parse_symbol_with_index() {
    let l = CFileLocation::from_str("file.c#function#2").unwrap();
    assert_eq!(l.pos, CFileLocationPos::Symbol { name: "function".to_string(), index: 2 });
}

#[test]
fn parse_line() {
    let l = CFileLocation::from_str("file.c:42").unwrap();
    assert_eq!(l.file, "file.c");
    assert_eq!(l.pos, CFileLocationPos::Absolute { line: 42, column: None });
}

#[test]
fn parse_line_and_column() {
    let l = CFileLocation::from_str("file.c:42:10").unwrap();
    assert_eq!(l.pos, CFileLocationPos::Absolute { line: 42, column: Some(10) });
}

#[test]
fn parse_plus_sign() {
    let l = CFileLocation::from_str("f.c:+7").unwrap();
    assert_eq!(l.pos, CFileLocationPos::Absolute { line: 7, column: None });
}

#[test]
fn parse_invalid_format() {
    assert_eq!(
        CFileLocation::from_str("file.c").unwrap_err(),
        CFileLocationParseError::InvalidFormat
    );
}

#[test]
fn parse_invalid_number() {
    assert_eq!(
        CFileLocation::from_str("file.c:x").unwrap_err(),
        CFileLocationParseError::InvalidNumber
    );
    assert_eq!(
        CFileLocation::from_str("file.c#f#two").unwrap_err(),
        CFileLocationParseError::InvalidNumber
    );
    assert_eq!(
        CFileLocation::from_str("file.c:1:99999999999").unwrap_err(),
        CFileLocationParseError::InvalidNumber
    );
    assert_eq!(
        CFileLocation::from_str("file.c:").unwrap_err(),
        CFileLocationParseError::InvalidNumber
    );
}

#[test]
fn hash_wins_over_colon() {
    let l = CFileLocation::from_str("a:b.c#f").unwrap();
    assert_eq!(l.file, "a:b.c");
}

#[test]
fn location_text() {
    for s in ["file.c#function", "file.c#function#2", "file.c:42", "file.c:42:10"] {
        assert_eq!(CFileLocation::from_str(s).unwrap().to_string(), s);
    }
    let zero = CFileLocation::from_str("f.c#g#0").unwrap();
    assert_eq!(zero.to_string(), "f.c#g");
}

fn candidate(kind_matches: bool, top_level: bool, line: u32, column: u32, name: &str) -> Candidate {
    Candidate { kind_matches, top_level, line, column, name: Some(name.to_string()) }
}

#[test]
fn find_by_position() {
    let cs = vec![
        candidate(false, true, 3, 1, "a"),
        candidate(true, true, 3, 5, "b"),
        candidate(true, false, 3, 9, "c"),
    ];
    let at = |s: &str| CFileLocation::from_str(s).unwrap().find(&cs);
    assert_eq!(at("f.c:3"), Some(1));
    assert_eq!(at("f.c:3:9"), Some(2));
    assert_eq!(at("f.c:3:1"), None);
    assert_eq!(at("f.c:4"), None);
}

#[test]
fn find_by_name() {
    let cs = vec![
        candidate(true, true, 1, 1, "f"),
        candidate(true, false, 2, 1, "f"),
        candidate(false, true, 3, 1, "f"),
        candidate(true, true, 4, 1, "g"),
    ];
    let at = |s: &str| CFileLocation::from_str(s).unwrap().find(&cs);
    assert_eq!(at("x.c#f"), Some(0));
    assert_eq!(at("x.c#f#1"), Some(2));
    assert_eq!(at("x.c#f#2"), None);
    assert_eq!(at("x.c#g"), Some(3));
    assert_eq!(at("x.c#h"), None);
}

#[test]
fn title_case() {
    let mut s = "int".to_string();
    make_ascii_title_case(&mut s);
    assert_eq!(s, "Int");
    let mut e = String::new();
    make_ascii_title_case(&mut e);
    assert_eq!(e, "");
    let mut u = "éa".to_string();
    make_ascii_title_case(&mut u);
    assert_eq!(u, "éa");
    let mut d = "9x".to_string();
    make_ascii_title_case(&mut d);
    assert_eq!(d, "9x");
}

#[test]
fn parse_error_messages() {
    assert_eq!(
        CFileLocationParseError::InvalidFormat.to_string(),
        "Invalid file location format. Refer to help for examples."
    );
    assert_eq!(
        CFileLocationParseError::InvalidNumber.to_string(),
        "Couldn't parse what we expected to be a number"
    );
}
