use renamer::style::{join_parts, rename_map, styles};
use renamer::{Case, Name, NamingStyle, SimpleNamingStyle, Token};

#[test]
fn test_simple_style() {
    let style = SimpleNamingStyle {
        first_case: Case::Lower,
        other_case: Case::Title,
        upper_acronyms: true,
        separator: "_".into(),
    };
    let tokens = vec![
        Token {
            value: "protocol".to_owned(),
            is_acronym: false,
        },
        Token {
            value: "named".to_owned(),
            is_acronym: false,
        },
        Token {
            value: "tcp".to_owned(),
            is_acronym: true,
        },
    ];
    assert_eq!(style.format(&tokens), "protocol_Named_TCP");
}

#[test]
fn case_format() {
    assert_eq!(Case::Lower.format("HeLLo"), "hello");
    assert_eq!(Case::Upper.format("HeLLo"), "HELLO");
    assert_eq!(Case::Title.format("hELLO"), "Hello");
    assert_eq!(Case::Title.format("ßa"), "SSa");
    assert_eq!(Case::Title.format(""), "");
}

#[test]
fn format_no_tokens() {
    let style = SimpleNamingStyle {
        first_case: Case::Lower,
        other_case: Case::Lower,
        upper_acronyms: false,
        separator: "_".into(),
    };
    assert_eq!(style.format(&[]), "");
}

#[test]
fn standard_styles() {
    let name = Name::parse("bad HTTP response").unwrap();
    let tokens: Vec<Token> = name.singular().cloned().collect();
    let formatted: Vec<String> = styles().iter().map(|s| s.format(&tokens)).collect();
    assert_eq!(
        formatted,
        vec![
            "bad_http_response",
            "BAD_HTTP_RESPONSE",
            "badHTTPResponse",
            "BadHTTPResponse"
        ]
    );
}

#[test]
fn rename_pairs() {
    let old = Name::parse("old name").unwrap();
    let new = Name::parse("new ID").unwrap();
    let pairs = rename_map(&old, &new);
    assert_eq!(
        pairs,
        vec![
            ("old_name".to_owned(), "new_id".to_owned()),
            ("OLD_NAME".to_owned(), "NEW_ID".to_owned()),
            ("oldName".to_owned(), "newID".to_owned()),
            ("OldName".to_owned(), "NewID".to_owned()),
        ]
    );
}

#[test]
fn join_parts_exact() {
    let parts = vec!["a".to_owned(), "".to_owned(), "bc".to_owned()];
    assert_eq!(join_parts(&parts, "--"), "a----bc");
    assert_eq!(join_parts(&vec!["x".to_owned()], "_"), "x");
    assert_eq!(join_parts(&Vec::new(), "_"), "");
}
