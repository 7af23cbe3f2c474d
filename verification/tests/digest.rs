use sha2::{Digest, Sha256};
use symbolique::hasher::{digest, digest_salted};
use symbolique::token::{Delim, Spacing, Token};

fn chars(s: &str) -> Vec<char> {
    s.chars().collect()
}

fn ident(s: &str) -> Token {
    Token::Ident(chars(s), 0)
}

fn lit(s: &str) -> Token {
    Token::Lit(chars(s), 0)
}

fn sha_hex(bytes: &[u8]) -> String {
    let out = Sha256::digest(bytes);
    out.iter().map(|b| format!("{:02x}", b)).collect::<Vec<_>>().join("")
}

#[test]
fn digest_is_deterministic() {
    let a = digest(&ident("alpha")).unwrap();
    let b = digest(&ident("alpha")).unwrap();
    assert_eq!(a, b);
}

#[test]
fn digest_matches_reference_sha256() {
    let d = digest(&ident("foo")).unwrap();
    let expected = Sha256::digest(b"foo");
    assert_eq!(d.as_slice(), expected.as_slice());
}

#[test]
fn salted_digest_matches_reference_sha256() {
    let salt: u128 = 0x0102_0304_0506_0708_090A_0B0C_0D0E_0F10;
    let d = digest_salted(&ident("foo"), salt).unwrap();
    let mut h = Sha256::new();
    h.update(salt.to_be_bytes());
    h.update(b"foo");
    assert_eq!(d.as_slice(), h.finalize().as_slice());
}

#[test]
fn escaped_and_plain_string_literals_hash_alike() {
    let a = digest(&lit("\"\\x41\"")).unwrap();
    let b = digest(&lit("\"A\"")).unwrap();
    assert_eq!(a, b);
}

#[test]
fn unicode_escape_hashes_like_plain_char() {
    let a = digest(&lit("\"\\u{41}\"")).unwrap();
    let b = digest(&lit("\"A\"")).unwrap();
    assert_eq!(a, b);
}

#[test]
fn raw_string_hashes_like_plain_string() {
    let a = digest(&lit("r#\"hi\"#")).unwrap();
    let b = digest(&lit("\"hi\"")).unwrap();
    assert_eq!(a, b);
}

#[test]
fn byte_literal_escapes_hash_alike() {
    let a = digest(&lit("b'A'")).unwrap();
    let b = digest(&lit("b'\\x41'")).unwrap();
    assert_eq!(a, b);
}

#[test]
fn char_literal_contributes_decoded_value() {
    let d = digest(&lit("'\\n'")).unwrap();
    let expected = Sha256::digest(b"\n");
    assert_eq!(d.as_slice(), expected.as_slice());
}

#[test]
fn bool_literal_contributes_its_spelling() {
    let d = digest(&lit("true")).unwrap();
    let expected = Sha256::digest(b"true");
    assert_eq!(d.as_slice(), expected.as_slice());
}

#[test]
fn integer_literal_contributes_raw_text() {
    let d = digest(&lit("0x1F_u32")).unwrap();
    let expected = Sha256::digest(b"0x1F_u32");
    assert_eq!(d.as_slice(), expected.as_slice());
}

#[test]
fn group_wrapping_does_not_change_digest() {
    let bare = digest(&lit("true")).unwrap();
    let grouped = digest(&Token::Group(Delim::Parenthesis, vec![lit("true")], 7)).unwrap();
    assert_eq!(bare, grouped);
}

#[test]
fn punctuation_does_not_change_digest() {
    let with = digest(&Token::Group(
        Delim::Parenthesis,
        vec![ident("a"), Token::Punct(',', Spacing::Alone, 0), ident("b")],
        0,
    ))
    .unwrap();
    let without = digest(&Token::Group(Delim::Parenthesis, vec![ident("a"), ident("b")], 0))
        .unwrap();
    assert_eq!(with, without);
}

#[test]
fn delimiter_does_not_change_digest() {
    let braces = digest(&Token::Group(Delim::Brace, vec![ident("n")], 0)).unwrap();
    let brackets = digest(&Token::Group(Delim::Bracket, vec![ident("n")], 0)).unwrap();
    assert_eq!(braces, brackets);
}

#[test]
fn four_declaration_names_do_not_collide() {
    let ds: Vec<Vec<u8>> = ["\"north\"", "\"south\"", "\"east\"", "\"west\""]
        .iter()
        .map(|s| digest(&lit(s)).unwrap())
        .collect();
    for i in 0..ds.len() {
        for j in 0..ds.len() {
            if i != j {
                assert_ne!(ds[i], ds[j]);
            }
        }
    }
}

#[test]
fn unrecognized_literal_yields_none() {
    assert!(digest(&lit("@@")).is_none());
    assert!(digest(&lit("")).is_none());
    assert!(digest(&lit("'ab'")).is_none());
}

#[test]
fn string_continuation_removes_whitespace() {
    let a = digest(&lit("\"a\\\n   b\"")).unwrap();
    let b = digest(&lit("\"ab\"")).unwrap();
    assert_eq!(a, b);
}

#[test]
fn byte_string_contributes_decoded_bytes() {
    let d = digest(&lit("b\"hi\\x00\"")).unwrap();
    let expected = Sha256::digest(b"hi\x00");
    assert_eq!(d.as_slice(), expected.as_slice());
}

#[test]
fn sha_hex_helper_agrees_with_digest() {
    let d = digest(&ident("check")).unwrap();
    let hex: String = d.iter().map(|b| format!("{:02x}", b)).collect::<Vec<_>>().join("");
    assert_eq!(hex, sha_hex(b"check"));
}
