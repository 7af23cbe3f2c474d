use sha2::{Digest, Sha256};
use symbolique::rewrite::{rewrite, RewriteError, RewriteState};
use symbolique::token::{Delim, Spacing, Token};

fn chars(s: &str) -> Vec<char> {
    s.chars().collect()
}

fn ident(s: &str) -> Token {
    Token::Ident(chars(s), 0)
}

fn ident_at(s: &str, pos: u32) -> Token {
    Token::Ident(chars(s), pos)
}

fn lit_at(s: &str, pos: u32) -> Token {
    Token::Lit(chars(s), pos)
}

fn state(salt: u128) -> RewriteState {
    RewriteState { salt, next_id: 1 }
}

fn text_of(t: &Token) -> String {
    match t {
        Token::Ident(cs, _) => cs.iter().collect(),
        Token::Lit(cs, _) => cs.iter().collect(),
        _ => panic!("expected an identifier or literal"),
    }
}

#[test]
fn ordinary_tokens_pass_through() {
    let input = vec![
        ident_at("fn", 4),
        Token::Punct(':', Spacing::Joint, 5),
        lit_at("12u8", 6),
    ];
    let mut st = state(0);
    let out = rewrite(&input, &mut st).unwrap();
    assert_eq!(out, input);
    assert_eq!(st.next_id, 1);
}

#[test]
fn skip_directive_copies_one_token() {
    let input = vec![ident("__SYMBOLIQUE_SKIP"), ident_at("x", 1), ident_at("y", 2)];
    let mut st = state(0);
    let out = rewrite(&input, &mut st).unwrap();
    assert_eq!(out, vec![ident_at("x", 1), ident_at("y", 2)]);
}

#[test]
fn skip_copies_even_a_directive_token() {
    let input = vec![ident("__SYMBOLIQUE_SKIP"), ident("__SYMBOLIQUE_DOLLAR")];
    let mut st = state(0);
    let out = rewrite(&input, &mut st).unwrap();
    assert_eq!(out, vec![ident("__SYMBOLIQUE_DOLLAR")]);
}

#[test]
fn skip_at_end_vanishes() {
    let input = vec![ident("__SYMBOLIQUE_SKIP")];
    let mut st = state(0);
    let out = rewrite(&input, &mut st).unwrap();
    assert!(out.is_empty());
}

#[test]
fn group_of_ordinary_tokens_is_preserved() {
    let input = vec![Token::Group(
        Delim::Bracket,
        vec![ident("a"), Token::Punct(',', Spacing::Alone, 0), ident("b")],
        9,
    )];
    let mut st = state(0);
    let out = rewrite(&input, &mut st).unwrap();
    assert_eq!(out, input);
}

#[test]
fn dollar_directive_leaves_a_dollar() {
    let input = vec![ident_at("__SYMBOLIQUE_DOLLAR", 3)];
    let mut st = state(0);
    let out = rewrite(&input, &mut st).unwrap();
    assert_eq!(out, vec![Token::Punct('$', Spacing::Alone, 3)]);
}

#[test]
fn incremental_ids_count_from_one() {
    let input = vec![
        ident("__SYMBOLIQUE_GEN_NZ_INCREMENTAL_ID"),
        ident("mid"),
        ident("__SYMBOLIQUE_GEN_NZ_INCREMENTAL_ID"),
    ];
    let mut st = state(0);
    let out = rewrite(&input, &mut st).unwrap();
    assert_eq!(out.len(), 3);
    assert_eq!(text_of(&out[0]), "1u32");
    assert_eq!(text_of(&out[1]), "mid");
    assert_eq!(text_of(&out[2]), "2u32");
    assert_eq!(st.next_id, 3);
}

#[test]
fn ids_continue_inside_groups() {
    let input = vec![
        Token::Group(Delim::Brace, vec![ident("__SYMBOLIQUE_GEN_NZ_INCREMENTAL_ID")], 0),
        ident("__SYMBOLIQUE_GEN_NZ_INCREMENTAL_ID"),
    ];
    let mut st = state(0);
    let out = rewrite(&input, &mut st).unwrap();
    match &out[0] {
        Token::Group(d, inner, _) => {
            assert_eq!(*d, Delim::Brace);
            assert_eq!(text_of(&inner[0]), "1u32");
        },
        _ => panic!("expected a group"),
    }
    assert_eq!(text_of(&out[1]), "2u32");
}

#[test]
fn id_overflow_aborts() {
    let input = vec![ident("__SYMBOLIQUE_GEN_NZ_INCREMENTAL_ID")];
    let mut st = RewriteState { salt: 0, next_id: u32::MAX };
    let r = rewrite(&input, &mut st);
    assert_eq!(r.unwrap_err(), RewriteError::IdExhausted);
    assert_eq!(st.next_id, u32::MAX);
}

#[test]
fn id_near_limit_still_works_once() {
    let input = vec![ident("__SYMBOLIQUE_GEN_NZ_INCREMENTAL_ID")];
    let mut st = RewriteState { salt: 0, next_id: u32::MAX - 1 };
    let out = rewrite(&input, &mut st).unwrap();
    assert_eq!(text_of(&out[0]), "4294967294u32");
    assert_eq!(st.next_id, u32::MAX);
    let r = rewrite(&input, &mut st);
    assert_eq!(r.unwrap_err(), RewriteError::IdExhausted);
}

#[test]
fn hash_directive_generates_content_ident() {
    let input = vec![ident("__SYMBOLIQUE_MAGIC_HASH"), ident_at("foo", 42)];
    let mut st = state(1234);
    let out = rewrite(&input, &mut st).unwrap();
    assert_eq!(out.len(), 1);
    let hex: String =
        Sha256::digest(b"foo").iter().map(|b| format!("{:02x}", b)).collect::<Vec<_>>().join("");
    assert_eq!(text_of(&out[0]), format!("symbolique_{}", hex));
    match &out[0] {
        Token::Ident(_, pos) => assert_eq!(*pos, 42),
        _ => panic!("expected an identifier"),
    }
}

#[test]
fn hash_is_stable_across_invocations_and_salts() {
    let input = vec![ident("__SYMBOLIQUE_MAGIC_HASH"), ident("foo")];
    let mut st1 = state(1);
    let mut st2 = state(2);
    let a = rewrite(&input, &mut st1).unwrap();
    let b = rewrite(&input, &mut st2).unwrap();
    assert_eq!(a, b);
}

#[test]
fn hash_rand_folds_the_salt() {
    let input = vec![ident("__SYMBOLIQUE_MAGIC_HASH_RAND"), ident("foo")];
    let mut st1 = state(1);
    let mut st2 = state(2);
    let a = rewrite(&input, &mut st1).unwrap();
    let b = rewrite(&input, &mut st2).unwrap();
    assert_ne!(a, b);

    let mut st3 = state(1);
    let c = rewrite(&input, &mut st3).unwrap();
    assert_eq!(a, c);

    let mut h = Sha256::new();
    h.update(1u128.to_be_bytes());
    h.update(b"foo");
    let hex: String =
        h.finalize().iter().map(|b| format!("{:02x}", b)).collect::<Vec<_>>().join("");
    assert_eq!(text_of(&a[0]), format!("symbolique_{}", hex));
}

#[test]
fn hash_of_group_payload_ignores_punctuation() {
    let grouped = vec![
        ident("__SYMBOLIQUE_MAGIC_HASH"),
        Token::Group(
            Delim::Parenthesis,
            vec![ident("a"), Token::Punct(',', Spacing::Alone, 0), ident("b")],
            0,
        ),
    ];
    let plain = vec![
        ident("__SYMBOLIQUE_MAGIC_HASH"),
        Token::Group(Delim::Brace, vec![ident("a"), ident("b")], 0),
    ];
    let mut st1 = state(0);
    let mut st2 = state(0);
    let a = rewrite(&grouped, &mut st1).unwrap();
    let b = rewrite(&plain, &mut st2).unwrap();
    assert_eq!(text_of(&a[0]), text_of(&b[0]));
}

#[test]
fn hash_missing_payload_aborts() {
    let input = vec![ident("__SYMBOLIQUE_MAGIC_HASH")];
    let mut st = state(0);
    assert_eq!(rewrite(&input, &mut st).unwrap_err(), RewriteError::MissingPayload);
}

#[test]
fn hash_of_unrecognized_literal_aborts() {
    let input = vec![ident("__SYMBOLIQUE_MAGIC_HASH"), lit_at("@@", 0)];
    let mut st = state(0);
    assert_eq!(rewrite(&input, &mut st).unwrap_err(), RewriteError::MalformedLiteral);
}

#[test]
fn fresh_state_counter_starts_at_one() {
    let st = RewriteState::fresh();
    assert_eq!(st.next_id, 1);
}

#[test]
fn directives_inside_nested_groups_are_rewritten() {
    let input = vec![Token::Group(
        Delim::Parenthesis,
        vec![Token::Group(Delim::Brace, vec![ident("__SYMBOLIQUE_DOLLAR")], 0)],
        0,
    )];
    let mut st = state(0);
    let out = rewrite(&input, &mut st).unwrap();
    match &out[0] {
        Token::Group(_, inner, _) => match &inner[0] {
            Token::Group(_, innermost, _) => {
                assert_eq!(innermost[0], Token::Punct('$', Spacing::Alone, 0));
            },
            _ => panic!("expected inner group"),
        },
        _ => panic!("expected outer group"),
    }
}
