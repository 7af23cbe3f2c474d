use vstd::prelude::*;

use sha2::Digest;

verus! {

use vstd::utf8::encode_utf8;
use crate::token::{Token, TokView, Delim, Spacing, toks_deep, tok_size, toks_size, lemma_toks_deep,
    lemma_tok_size_pos};
use crate::literal::{canon_lit, canon_literal};
use crate::chars::{encode_chars, hex_of, hex_chars, u128_be_bytes, u128_to_be, str_chars};

/// The SHA-256 digest of a byte sequence, named and otherwise unspecified:
/// the contracts below rely only on it being a function of the input.
pub uninterp spec fn sha256_of(input: Seq<u8>) -> Seq<u8>;

/// Relies on sha2::Sha256 (the RustCrypto implementation of FIPS 180-4
/// SHA-256): the digest is a pure function of the input bytes alone and is
/// always 32 bytes long.
#[verifier::external_body]
fn sha256(input: &Vec<u8>) -> (r: Vec<u8>)
    ensures
        r@ == sha256_of(input@),
        r@.len() == 32,
{
    sha2::Sha256::digest(input.as_slice()).to_vec()
}

/// The canonical bytes of one token: groups are unwrapped, identifiers
/// contribute their text, literals their canonicalized value, punctuation
/// nothing. `None` marks an unrecognizable literal.
pub open spec fn canon_tok(t: TokView) -> Option<Seq<u8>>
    decreases t,
{
    match t {
        TokView::Group(_, ts, _) => canon_seq(ts),
        TokView::Ident(s, _) => Some(encode_utf8(s)),
        TokView::Lit(raw, _) => canon_lit(raw),
        TokView::Punct(_, _, _) => Some(Seq::empty()),
    }
}

/// The canonical bytes of a token stream, in order.
pub open spec fn canon_seq(ts: Seq<TokView>) -> Option<Seq<u8>>
    decreases ts, ts.len(),
{
    if ts.len() == 0 {
        Some(Seq::empty())
    } else {
        match (canon_tok(ts[0]), canon_seq(ts.drop_first())) {
            (Some(a), Some(b)) => Some(a + b),
            _ => None,
        }
    }
}

/// The canonical digest of a payload tree: SHA-256 over its canonical bytes.
pub open spec fn digest_spec(payload: TokView) -> Option<Seq<u8>> {
    match canon_tok(payload) {
        Some(b) => Some(sha256_of(b)),
        None => None,
    }
}

/// The salted digest of a payload tree: SHA-256 over the big-endian salt
/// bytes followed by the canonical bytes.
pub open spec fn digest_salted_spec(payload: TokView, salt: u128) -> Option<Seq<u8>> {
    match canon_tok(payload) {
        Some(b) => Some(sha256_of(u128_be_bytes(salt) + b)),
        None => None,
    }
}

/// Determinism: the canonical digest is a function of the payload tree
/// alone, so repeated computations over equal trees agree, within a process
/// and across processes.
pub proof fn lemma_digest_deterministic(p: TokView, q: TokView)
    requires
        p == q,
    ensures
        digest_spec(p) == digest_spec(q),
{
}

/// A group contributes exactly its children's canonical bytes: neither the
/// delimiter nor the position takes part in the digest.
pub proof fn lemma_canon_group_transparent(d: Delim, ts: Seq<TokView>, p: u32)
    ensures
        canon_tok(TokView::Group(d, ts, p)) == canon_seq(ts),
{
}

/// Punctuation contributes nothing to the canonical bytes of a stream.
pub proof fn lemma_canon_punct_ignored(c: char, sp: Spacing, p: u32, rest: Seq<TokView>)
    ensures
        canon_seq(seq![TokView::Punct(c, sp, p)] + rest) == canon_seq(rest),
{
    let ts = seq![TokView::Punct(c, sp, p)] + rest;
    assert(ts[0] == TokView::Punct(c, sp, p));
    assert(ts.drop_first() =~= rest);
    assert(canon_tok(ts[0]) == Some(Seq::<u8>::empty()));
    match canon_seq(rest) {
        Some(b) => {
            assert(Seq::<u8>::empty() + b =~= b);
        },
        None => {},
    }
}

/// Canonical bytes of one token, following `canon_tok`.
fn canon_token(t: &Token) -> (r: Option<Vec<u8>>)
    ensures
        ({
            match (r, canon_tok(t.deep())) {
                (Some(v), Some(s)) => v@ == s,
                (None, None) => true,
                _ => false,
            }
        }),
    decreases tok_size(t.deep()), 0int,
{
    match t {
        Token::Group(_, ts, _) => {
            proof {
                assert(toks_deep(ts@).skip(0) =~= toks_deep(ts@));
            }
            canon_tokens(ts, 0)
        },
        Token::Ident(s, _) => Some(encode_chars(s)),
        Token::Lit(raw, _) => canon_literal(raw),
        Token::Punct(_, _, _) => {
            let v: Vec<u8> = Vec::new();
            proof {
                assert(v@ =~= Seq::<u8>::empty());
            }
            Some(v)
        },
    }
}

/// Canonical bytes of the stream suffix starting at `i`.
fn canon_tokens(ts: &Vec<Token>, i: usize) -> (r: Option<Vec<u8>>)
    requires
        i <= ts.len(),
    ensures
        ({
            match (r, canon_seq(toks_deep(ts@).skip(i as int))) {
                (Some(v), Some(s)) => v@ == s,
                (None, None) => true,
                _ => false,
            }
        }),
    decreases toks_size(toks_deep(ts@).skip(i as int)), 1int,
{
    proof {
        lemma_toks_deep(ts@);
    }
    let ghost d = toks_deep(ts@).skip(i as int);
    if i == ts.len() {
        proof {
            assert(d =~= Seq::<TokView>::empty());
        }
        let v: Vec<u8> = Vec::new();
        proof {
            assert(v@ =~= Seq::<u8>::empty());
        }
        Some(v)
    } else {
        proof {
            assert(d[0] == ts@[i as int].deep());
            assert(d.drop_first() =~= toks_deep(ts@).skip(i + 1));
            lemma_tok_size_pos(d[0]);
        }
        match canon_token(&ts[i]) {
            Some(mut a) => {
                match canon_tokens(ts, i + 1) {
                    Some(mut b) => {
                        a.append(&mut b);
                        Some(a)
                    },
                    None => None,
                }
            },
            None => None,
        }
    }
}

/// Canonical digest of a payload tree; `None` marks a literal the grammar
/// does not recognize.
pub fn digest(payload: &Token) -> (r: Option<Vec<u8>>)
    ensures
        ({
            match (r, digest_spec(payload.deep())) {
                (Some(v), Some(s)) => v@ == s,
                (None, None) => true,
                _ => false,
            }
        }),
{
    match canon_token(payload) {
        Some(b) => Some(sha256(&b)),
        None => None,
    }
}

/// Salted canonical digest of a payload tree.
pub fn digest_salted(payload: &Token, salt: u128) -> (r: Option<Vec<u8>>)
    ensures
        ({
            match (r, digest_salted_spec(payload.deep(), salt)) {
                (Some(v), Some(s)) => v@ == s,
                (None, None) => true,
                _ => false,
            }
        }),
{
    match canon_token(payload) {
        Some(mut b) => {
            let mut input = u128_to_be(salt);
            input.append(&mut b);
            Some(sha256(&input))
        },
        None => None,
    }
}

/// The text of a generated identifier: the fixed prefix and the digest in
/// lowercase hexadecimal.
pub open spec fn hash_ident_text(digest_bytes: Seq<u8>) -> Seq<char> {
    "symbolique_"@ + hex_of(digest_bytes)
}

pub fn hash_ident_chars(digest_bytes: &Vec<u8>) -> (r: Vec<char>)
    ensures
        r@ == hash_ident_text(digest_bytes@),
{
    let mut r = str_chars("symbolique_");
    let mut h = hex_chars(digest_bytes);
    r.append(&mut h);
    r
}

} // verus!
