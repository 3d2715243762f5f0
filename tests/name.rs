use renamer::{Name, ParsingError, Token};

#[test]
fn test_simple() {
    let name = Name::parse(" foo  BAR ").unwrap();
    assert_eq!(
        name.singular().collect::<Vec<&Token>>(),
        vec![
            &Token {
                value: "foo".to_owned(),
                is_acronym: false
            },
            &Token {
                value: "BAR".to_owned(),
                is_acronym: true
            },
        ],
    );
}

#[test]
fn test_mixed_case_error() {
    let error = Name::parse(" foo  Bar ").err().unwrap();
    assert_eq!(
        error,
        ParsingError::MixedCaseToken {
            raw_token: "Bar".to_owned()
        }
    );
}

#[test]
fn parse_splits_at_any_white_space() {
    let name = Name::parse("\tbad\nHTTP\u{a0}response ").unwrap();
    let values: Vec<&str> = name.singular().map(|t| t.value.as_str()).collect();
    assert_eq!(values, vec!["bad", "HTTP", "response"]);
    let acronyms: Vec<bool> = name.singular().map(|t| t.is_acronym).collect();
    assert_eq!(acronyms, vec![false, true, false]);
}

#[test]
fn parse_reports_first_mixed_token() {
    let error = Name::parse("ok Ab cD").err().unwrap();
    assert_eq!(
        error,
        ParsingError::MixedCaseToken {
            raw_token: "Ab".to_owned()
        }
    );
}

#[test]
fn parse_token_without_letters_is_acronym() {
    let name = Name::parse("v2 42").unwrap();
    let acronyms: Vec<bool> = name.singular().map(|t| t.is_acronym).collect();
    assert_eq!(acronyms, vec![false, true]);
}

#[test]
fn empty_name() {
    assert!(Name::parse("   ").unwrap().is_empty());
    assert!(Name::parse("").unwrap().is_empty());
    assert!(!Name::parse("x").unwrap().is_empty());
}
