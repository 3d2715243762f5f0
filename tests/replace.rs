use renamer::{default_replacer, Replacer, SimpleReplacer, TransformError};

#[test]
fn test_simple_replacer() {
    let replacer = SimpleReplacer::from_map(vec![
        ("aa".to_owned(), "aaa".to_owned()),
        (":)".to_owned(), "😊".to_owned()),
        ("😺".to_owned(), "a cat".to_owned()),
    ]);
    let src: Vec<u8> = "Whaaat? :) 😺".bytes().collect();
    let mut dst: Vec<u8> = Vec::new();
    assert_eq!(replacer.transform(&src[..], &mut dst).unwrap(), ());
    assert_eq!(String::from_utf8(dst).unwrap(), "Whaaaat? 😊 a cat");
}

#[test]
fn replacer_multibyte_before_match() {
    let replacer = default_replacer(vec![("b".to_owned(), "X".to_owned())]);
    let mut dst: Vec<u8> = Vec::new();
    replacer.transform("éb😺b".as_bytes(), &mut dst).unwrap();
    assert_eq!(String::from_utf8(dst).unwrap(), "éX😺X");
}

#[test]
fn replacer_last_pair_wins() {
    let replacer = default_replacer(vec![
        ("ab".to_owned(), "1".to_owned()),
        ("ab".to_owned(), "2".to_owned()),
    ]);
    let mut dst: Vec<u8> = Vec::new();
    replacer.transform(b"abab", &mut dst).unwrap();
    assert_eq!(dst, b"22".to_vec());
}

#[test]
fn replacer_invalid_utf8() {
    let replacer = default_replacer(vec![("a".to_owned(), "b".to_owned())]);
    let mut dst: Vec<u8> = b"kept".to_vec();
    assert_eq!(
        replacer.transform(&[0x61, 0xff], &mut dst),
        Err(TransformError::InvalidEncoding)
    );
    assert_eq!(dst, b"kept".to_vec());
}
