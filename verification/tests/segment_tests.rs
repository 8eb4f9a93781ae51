use silk::http::path::{Segment, SegmentParseError};

#[test]
fn segment_without_leading_slash_is_refused() {
    assert_eq!(
        Err(SegmentParseError::InvalidStart('h')),
        Segment::parse("home".to_string())
    );
}

#[test]
fn empty_segment_is_refused() {
    assert_eq!(Err(SegmentParseError::EmptyInput), Segment::parse(String::new()));
}

#[test]
fn unclosed_pattern_is_refused() {
    assert_eq!(
        Err(SegmentParseError::ExpectedClosingCurly),
        Segment::parse("/{name".to_string())
    );
}

#[test]
fn empty_pattern_is_refused() {
    assert_eq!(
        Err(SegmentParseError::EmptyPattern),
        Segment::parse("/{}".to_string())
    );
}

#[test]
fn text_after_a_pattern_is_ignored() {
    assert_eq!(
        Ok(Segment::Pattern {
            reference: "id".to_string()
        }),
        Segment::parse("/x{id}rest}".to_string())
    );
}

#[test]
fn closing_brace_alone_stays_static() {
    assert_eq!(
        Ok(Segment::Static("/a}b".to_string())),
        Segment::parse("/a}b".to_string())
    );
}

#[test]
fn error_messages() {
    assert_eq!(
        "Segment begins with h, should begin with '/'",
        SegmentParseError::InvalidStart('h').to_string()
    );
    assert_eq!("Empty Input", SegmentParseError::EmptyInput.to_string());
    assert_eq!(
        "Expected '}' at end",
        SegmentParseError::ExpectedClosingCurly.to_string()
    );
    assert_eq!(
        "Pattern missing identifier, found '{}'",
        SegmentParseError::EmptyPattern.to_string()
    );
}

#[test]
fn segment_text_and_kind() {
    let s = Segment::Static("/home".to_string());
    let p = Segment::Pattern {
        reference: "user".to_string(),
    };
    assert_eq!("/home", s.get_string());
    assert_eq!("user", p.get_string());
    assert!(s.is_static());
    assert!(!p.is_static());
}

#[test]
fn empty_path_has_no_segments() {
    assert!(Segment::parse_path("").is_empty());
}

#[test]
fn every_slash_but_a_leading_one_starts_a_segment() {
    assert_eq!(
        vec![
            Ok(Segment::Static("/".to_string())),
            Ok(Segment::Static("/".to_string())),
            Ok(Segment::Static("/x".to_string())),
        ],
        Segment::parse_path("///x")
    );
    assert_eq!(
        vec![
            Err(SegmentParseError::InvalidStart('a')),
            Ok(Segment::Static("/b".to_string())),
        ],
        Segment::parse_path("a/b")
    );
}

#[test]
fn raw_segments_put_back_together_give_the_path() {
    let path = "/usr//local/bin/";
    let joined: String = Segment::parse_path(path)
        .into_iter()
        .map(|s| s.unwrap().get_string().clone())
        .collect();
    assert_eq!(path, joined);
}
