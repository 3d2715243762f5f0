use renamer::{default_transformer, Transform, TransformError, Transformer};

fn run(pairs: &[(&str, &str)], input: &str) -> String {
    let transformer = Transformer::from_map(
        pairs
            .iter()
            .map(|(k, v)| (k.to_string(), v.to_string()))
            .collect(),
    );
    let mut dst: Vec<u8> = Vec::new();
    transformer.transform(input.as_bytes(), &mut dst).unwrap();
    String::from_utf8(dst).unwrap()
}

#[test]
fn test_suffix_link() {
    let transformer = Transformer::from_map(vec![
        ("abc".to_owned(), "x".to_owned()),
        ("bbc".to_owned(), "y".to_owned()),
    ]);
    let src: Vec<u8> = "abbc".bytes().collect();
    let mut dst: Vec<u8> = Vec::new();
    assert_eq!(transformer.transform(&src[..], &mut dst).unwrap(), ());
    assert_eq!(String::from_utf8(dst).unwrap(), "ay");
}

#[test]
fn test_dict_suffix_link() {
    let transformer = Transformer::from_map(vec![
        ("abcd".to_owned(), "x".to_owned()),
        ("bc".to_owned(), "y".to_owned()),
    ]);
    let src: Vec<u8> = "abce".bytes().collect();
    let mut dst: Vec<u8> = Vec::new();
    assert_eq!(transformer.transform(&src[..], &mut dst).unwrap(), ());
    assert_eq!(String::from_utf8(dst).unwrap(), "aye");
}

#[test]
fn test_utf8() {
    let transformer = Transformer::from_map(vec![
        ("aa".to_owned(), "aaa".to_owned()),
        (":)".to_owned(), "😊".to_owned()),
        ("😺".to_owned(), "a cat".to_owned()),
    ]);
    let src: Vec<u8> = "Whaaat? :)\n😺".bytes().collect();
    let mut dst: Vec<u8> = Vec::new();
    assert_eq!(transformer.transform(&src[..], &mut dst).unwrap(), ());
    assert_eq!(String::from_utf8(dst).unwrap(), "Whaaaat? 😊\na cat");
}

#[test]
fn no_occurrence_is_identity() {
    let input = "nothing to see here\nor here ✓\n";
    assert_eq!(run(&[("xyz", "Q"), ("hex", "R")], input), input);
}

#[test]
fn one_occurrence_replaced() {
    assert_eq!(run(&[("old_name", "new_name")], "let old_name = 1;"), "let new_name = 1;");
}

#[test]
fn longest_match_wins() {
    assert_eq!(run(&[("abc", "L"), ("bc", "S")], "xabc"), "xL");
    assert_eq!(run(&[("bc", "S"), ("abc", "L")], "xabcbc"), "xLS");
}

#[test]
fn multibyte_cat() {
    assert_eq!(run(&[("😺", "a cat")], "Whaaat? 😺"), "Whaaat? a cat");
}

#[test]
fn line_independence() {
    assert_eq!(run(&[("ab", "Z")], "a\nb"), "a\nb");
    assert_eq!(run(&[("ab", "Z")], "ab\nab"), "Z\nZ");
}

#[test]
fn replacement_not_rescanned() {
    assert_eq!(run(&[("aa", "aaa")], "aaaa"), "aaaaaa");
    assert_eq!(run(&[("a", "aa")], "aaa"), "aaaaaa");
}

#[test]
fn duplicate_pattern_keeps_last() {
    assert_eq!(run(&[("k", "1"), ("k", "2")], "k"), "2");
}

#[test]
fn empty_input_and_empty_dictionary() {
    assert_eq!(run(&[("a", "b")], ""), "");
    assert_eq!(run(&[], "abc\n"), "abc\n");
}

#[test]
fn invalid_utf8_is_an_error() {
    let transformer = default_transformer(vec![("a".to_owned(), "b".to_owned())]);
    let mut dst: Vec<u8> = b"x".to_vec();
    assert_eq!(
        transformer.transform(&[0x61, 0xc3], &mut dst),
        Err(TransformError::InvalidEncoding)
    );
    assert_eq!(dst, b"x".to_vec());
}

#[test]
fn output_appends() {
    let transformer = default_transformer(vec![("a".to_owned(), "b".to_owned())]);
    let mut dst: Vec<u8> = b">".to_vec();
    transformer.transform(b"cat", &mut dst).unwrap();
    transformer.transform(b"a", &mut dst).unwrap();
    assert_eq!(dst, b">cbtb".to_vec());
}
