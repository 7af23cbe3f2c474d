use vstd::prelude::*;

verus! {

use crate::token::{Token, TokView, Delim, Spacing, toks_deep, tok_size, toks_size,
    lemma_toks_deep, lemma_toks_deep_cons, lemma_tok_size_pos, lemma_toks_size_drop, dup_token};
use crate::hasher::{digest_spec, digest_salted_spec, digest, digest_salted, hash_ident_text,
    hash_ident_chars};
use crate::chars::{dec_chars, render_dec, chars_eq_str};

/// The directive keywords, recognized as exact identifier text.
pub open spec fn kw_hash() -> Seq<char> {
    "__SYMBOLIQUE_MAGIC_HASH"@
}

pub open spec fn kw_hash_rand() -> Seq<char> {
    "__SYMBOLIQUE_MAGIC_HASH_RAND"@
}

pub open spec fn kw_gen_id() -> Seq<char> {
    "__SYMBOLIQUE_GEN_NZ_INCREMENTAL_ID"@
}

pub open spec fn kw_dollar() -> Seq<char> {
    "__SYMBOLIQUE_DOLLAR"@
}

pub open spec fn kw_skip() -> Seq<char> {
    "__SYMBOLIQUE_SKIP"@
}

pub open spec fn is_directive(s: Seq<char>) -> bool {
    s == kw_hash() || s == kw_hash_rand() || s == kw_gen_id() || s == kw_dollar() || s == kw_skip()
}

/// Why a rewrite aborted. Every failure is an authoring error surfaced at
/// generation time; there is no recoverable path.
#[derive(Clone, Copy, PartialEq, Eq, Structural, Debug)]
pub enum RewriteError {
    /// A content-hash directive stood at the end of its stream, with no
    /// payload token after it.
    MissingPayload,
    /// A content-hash payload held a literal the canonicalization grammar
    /// does not recognize.
    MalformedLiteral,
    /// The sequential id counter ran out of 32-bit values.
    IdExhausted,
}

/// Per-invocation rewrite state: the process-scoped random salt and the
/// next sequential id, which starts at one and stays nonzero.
pub struct RewriteState {
    pub salt: u128,
    pub next_id: u32,
}

/// The rewrite of a token stream, threading the id counter left to right.
///
/// Groups keep their delimiter and position and have their children
/// rewritten. A content-hash directive consumes the next token, hashes its
/// canonical bytes (salted for the randomizing variant), and leaves one
/// generated identifier at the payload's position. The id directive leaves
/// the current counter value as a `u32`-suffixed numeric literal and bumps
/// the counter, aborting when the counter cannot be bumped. The dollar
/// directive leaves a lone `$`. The skip directive vanishes and copies the
/// next token through untouched. Everything else passes through unchanged.
pub open spec fn rw(ts: Seq<TokView>, salt: u128, next: u32) -> Result<
    (Seq<TokView>, u32),
    RewriteError,
>
    decreases toks_size(ts),
    via rw_dec
{
    if ts.len() == 0 {
        Ok((Seq::empty(), next))
    } else {
        match ts[0] {
            TokView::Group(d, ch, p) => match rw(ch, salt, next) {
                Ok((ch2, n2)) => match rw(ts.drop_first(), salt, n2) {
                    Ok((rest, n3)) => Ok((seq![TokView::Group(d, ch2, p)] + rest, n3)),
                    Err(e) => Err(e),
                },
                Err(e) => Err(e),
            },
            TokView::Ident(name, p) => {
                if name == kw_hash() || name == kw_hash_rand() {
                    if ts.len() < 2 {
                        Err(RewriteError::MissingPayload)
                    } else {
                        let dg = if name == kw_hash_rand() {
                            digest_salted_spec(ts[1], salt)
                        } else {
                            digest_spec(ts[1])
                        };
                        match dg {
                            Some(bytes) => match rw(ts.drop_first().drop_first(), salt, next) {
                                Ok((rest, n2)) => Ok(
                                    (
                                        seq![TokView::Ident(hash_ident_text(bytes), ts[1].pos())]
                                            + rest,
                                        n2,
                                    ),
                                ),
                                Err(e) => Err(e),
                            },
                            None => Err(RewriteError::MalformedLiteral),
                        }
                    }
                } else if name == kw_gen_id() {
                    if next == 0xFFFF_FFFFu32 {
                        Err(RewriteError::IdExhausted)
                    } else {
                        match rw(ts.drop_first(), salt, (next + 1) as u32) {
                            Ok((rest, n2)) => Ok(
                                (seq![TokView::Lit(dec_chars(next) + "u32"@, p)] + rest, n2),
                            ),
                            Err(e) => Err(e),
                        }
                    }
                } else if name == kw_dollar() {
                    match rw(ts.drop_first(), salt, next) {
                        Ok((rest, n2)) => Ok(
                            (seq![TokView::Punct('$', Spacing::Alone, p)] + rest, n2),
                        ),
                        Err(e) => Err(e),
                    }
                } else if name == kw_skip() {
                    if ts.len() < 2 {
                        rw(ts.drop_first(), salt, next)
                    } else {
                        match rw(ts.drop_first().drop_first(), salt, next) {
                            Ok((rest, n2)) => Ok((seq![ts[1]] + rest, n2)),
                            Err(e) => Err(e),
                        }
                    }
                } else {
                    match rw(ts.drop_first(), salt, next) {
                        Ok((rest, n2)) => Ok((seq![ts[0]] + rest, n2)),
                        Err(e) => Err(e),
                    }
                }
            },
            _ => match rw(ts.drop_first(), salt, next) {
                Ok((rest, n2)) => Ok((seq![ts[0]] + rest, n2)),
                Err(e) => Err(e),
            },
        }
    }
}

#[via_fn]
proof fn rw_dec(ts: Seq<TokView>, salt: u128, next: u32) {
    if ts.len() > 0 {
        lemma_toks_size_drop(ts);
        if ts.len() > 1 {
            lemma_toks_size_drop(ts.drop_first());
        }
        match ts[0] {
            TokView::Group(d, ch, p) => {
                assert(tok_size(ts[0]) == 1 + toks_size(ch));
                assert(toks_size(ts) == tok_size(ts[0]) + toks_size(ts.drop_first()));
            },
            _ => {},
        }
    }
}

/// No directive identifier occurs anywhere in this token.
pub open spec fn directive_free_tok(t: TokView) -> bool
    decreases t,
{
    match t {
        TokView::Group(_, ts, _) => directive_free(ts),
        TokView::Ident(s, _) => !is_directive(s),
        _ => true,
    }
}

/// No directive identifier occurs anywhere in this stream.
pub open spec fn directive_free(ts: Seq<TokView>) -> bool
    decreases ts, ts.len(),
{
    if ts.len() == 0 {
        true
    } else {
        directive_free_tok(ts[0]) && directive_free(ts.drop_first())
    }
}

/// A stream without directives rewrites to itself, and the id counter is
/// untouched.
pub proof fn lemma_rewrite_id(ts: Seq<TokView>, salt: u128, next: u32)
    requires
        directive_free(ts),
    ensures
        rw(ts, salt, next) == Ok::<(Seq<TokView>, u32), RewriteError>((ts, next)),
    decreases toks_size(ts),
{
    if ts.len() == 0 {
        assert(ts =~= Seq::<TokView>::empty());
    } else {
        lemma_toks_size_drop(ts);
        lemma_rewrite_id(ts.drop_first(), salt, next);
        assert(directive_free_tok(ts[0]));
        match ts[0] {
            TokView::Group(d, ch, p) => {
                assert(tok_size(ts[0]) == 1 + toks_size(ch));
                assert(toks_size(ts) == tok_size(ts[0]) + toks_size(ts.drop_first()));
                assert(directive_free(ch));
                lemma_rewrite_id(ch, salt, next);
                assert(seq![TokView::Group(d, ch, p)] + ts.drop_first() =~= ts);
            },
            TokView::Ident(s, p) => {
                assert(seq![ts[0]] + ts.drop_first() =~= ts);
            },
            _ => {
                assert(seq![ts[0]] + ts.drop_first() =~= ts);
            },
        }
    }
}

/// Group preservation: a group of directive-free tokens rewrites to a group
/// with the same delimiter, the same children, and the same position.
pub proof fn lemma_group_preserved(d: Delim, ch: Seq<TokView>, p: u32, salt: u128, next: u32)
    requires
        directive_free(ch),
    ensures
        rw(seq![TokView::Group(d, ch, p)], salt, next) == Ok::<
            (Seq<TokView>, u32),
            RewriteError,
        >((seq![TokView::Group(d, ch, p)], next)),
{
    let ts = seq![TokView::Group(d, ch, p)];
    assert(ts.drop_first() =~= Seq::<TokView>::empty());
    assert(ts[0] == TokView::Group(d, ch, p));
    assert(directive_free_tok(ts[0]));
    assert(directive_free(Seq::<TokView>::empty()));
    assert(directive_free(ts));
    lemma_rewrite_id(ts, salt, next);
}

proof fn lemma_kw_distinct()
    ensures
        kw_skip() != kw_hash(),
        kw_skip() != kw_hash_rand(),
        kw_skip() != kw_gen_id(),
        kw_skip() != kw_dollar(),
        kw_gen_id() != kw_hash(),
        kw_gen_id() != kw_hash_rand(),
{
    reveal_strlit("__SYMBOLIQUE_MAGIC_HASH");
    reveal_strlit("__SYMBOLIQUE_MAGIC_HASH_RAND");
    reveal_strlit("__SYMBOLIQUE_GEN_NZ_INCREMENTAL_ID");
    reveal_strlit("__SYMBOLIQUE_DOLLAR");
    reveal_strlit("__SYMBOLIQUE_SKIP");
    assert(kw_hash().len() == 23);
    assert(kw_hash_rand().len() == 28);
    assert(kw_gen_id().len() == 34);
    assert(kw_dollar().len() == 19);
    assert(kw_skip().len() == 17);
}

/// The skip directive vanishes and the token right after it is copied
/// through untouched, whatever it is; the rest is rewritten as usual.
pub proof fn lemma_skip_copies_next(x: TokView, rest: Seq<TokView>, salt: u128, next: u32, p: u32)
    ensures
        rw(seq![TokView::Ident(kw_skip(), p), x] + rest, salt, next) == (match rw(
            rest,
            salt,
            next,
        ) {
            Ok((o, n)) => Ok::<(Seq<TokView>, u32), RewriteError>((seq![x] + o, n)),
            Err(e) => Err(e),
        }),
{
    lemma_kw_distinct();
    let ts = seq![TokView::Ident(kw_skip(), p), x] + rest;
    assert(ts[0] == TokView::Ident(kw_skip(), p));
    assert(ts[1] == x);
    assert(ts.drop_first().drop_first() =~= rest);
}

/// The skip scenario: a skip directive before two directive-free tokens
/// leaves exactly those two tokens.
pub proof fn lemma_skip_scenario(x: TokView, y: TokView, salt: u128, next: u32, p: u32)
    requires
        directive_free_tok(y),
    ensures
        rw(seq![TokView::Ident(kw_skip(), p), x, y], salt, next) == Ok::<
            (Seq<TokView>, u32),
            RewriteError,
        >((seq![x, y], next)),
{
    assert(seq![y].drop_first() =~= Seq::<TokView>::empty());
    assert(seq![y][0] == y);
    assert(directive_free(Seq::<TokView>::empty()));
    assert(directive_free(seq![y]));
    lemma_rewrite_id(seq![y], salt, next);
    lemma_skip_copies_next(x, seq![y], salt, next, p);
    assert(seq![TokView::Ident(kw_skip(), p), x] + seq![y] =~= seq![
        TokView::Ident(kw_skip(), p),
        x,
        y,
    ]);
    assert(seq![x] + seq![y] =~= seq![x, y]);
}

/// Relies on fastrand::u128: a fresh random value; nothing is assumed of
/// which value comes back.
#[verifier::external_body]
fn random_u128() -> u128 {
    fastrand::u128(..)
}

impl RewriteState {
    /// A fresh per-invocation state: a random salt drawn once, and the id
    /// counter at its starting value of one.
    pub fn fresh() -> (st: RewriteState)
        ensures
            st.next_id == 1,
    {
        RewriteState { salt: random_u128(), next_id: 1 }
    }
}

/// Rewrites the stream suffix starting at `i`, following `rw`.
#[verifier::rlimit(100)]
fn rewrite_from(ts: &Vec<Token>, i: usize, salt: u128, next: u32) -> (r: Result<
    (Vec<Token>, u32),
    RewriteError,
>)
    requires
        i <= ts.len(),
    ensures
        ({
            let sp = rw(toks_deep(ts@).skip(i as int), salt, next);
            match (r, sp) {
                (Ok((out, n)), Ok((o2, n2))) => toks_deep(out@) == o2 && n == n2,
                (Err(a), Err(b)) => a == b,
                _ => false,
            }
        }),
    decreases toks_size(toks_deep(ts@).skip(i as int)),
{
    proof {
        lemma_toks_deep(ts@);
    }
    let ghost d = toks_deep(ts@).skip(i as int);
    if i == ts.len() {
        proof {
            assert(d =~= Seq::<TokView>::empty());
        }
        let out: Vec<Token> = Vec::new();
        proof {
            assert(toks_deep(out@) =~= Seq::<TokView>::empty());
        }
        Ok((out, next))
    } else {
        proof {
            assert(d[0] == ts@[i as int].deep());
            assert(d.drop_first() =~= toks_deep(ts@).skip(i + 1));
            lemma_tok_size_pos(d[0]);
            lemma_toks_size_drop(d);
        }
        match &ts[i] {
            Token::Group(delim, ch, p) => {
                proof {
                    assert(toks_deep(ch@).skip(0) =~= toks_deep(ch@));
                    assert(tok_size(d[0]) == 1 + toks_size(toks_deep(ch@)));
                    assert(toks_size(d) == tok_size(d[0]) + toks_size(d.drop_first()));
                }
                match rewrite_from(ch, 0, salt, next) {
                    Ok((ch2, n2)) => match rewrite_from(ts, i + 1, salt, n2) {
                        Ok((mut rest, n3)) => {
                            let g = Token::Group(*delim, ch2, *p);
                            let ghost rest0 = rest@;
                            rest.insert(0, g);
                            proof {
                                assert(rest@ =~= seq![g] + rest0);
                                lemma_toks_deep_cons(g, rest0);
                            }
                            Ok((rest, n3))
                        },
                        Err(e) => Err(e),
                    },
                    Err(e) => Err(e),
                }
            },
            Token::Ident(name, p) => {
                let is_h = chars_eq_str(name, "__SYMBOLIQUE_MAGIC_HASH");
                let is_hr = chars_eq_str(name, "__SYMBOLIQUE_MAGIC_HASH_RAND");
                if is_h || is_hr {
                    if i + 1 == ts.len() {
                        Err(RewriteError::MissingPayload)
                    } else {
                        proof {
                            assert(d[1] == toks_deep(ts@)[i + 1]);
                            assert(d[1] == ts@[i + 1].deep());
                        }
                        let payload = &ts[i + 1];
                        let dg = if is_hr {
                            digest_salted(payload, salt)
                        } else {
                            digest(payload)
                        };
                        match dg {
                            Some(bytes) => {
                                let ident_text = hash_ident_chars(&bytes);
                                let pp = payload.pos();
                                proof {
                                    assert(d.drop_first().drop_first() =~= toks_deep(ts@).skip(
                                        i + 2,
                                    ));
                                    lemma_toks_size_drop(d.drop_first());
                                }
                                match rewrite_from(ts, i + 2, salt, next) {
                                    Ok((mut rest, n2)) => {
                                        let idt = Token::Ident(ident_text, pp);
                                        let ghost rest0 = rest@;
                                        rest.insert(0, idt);
                                        proof {
                                            assert(rest@ =~= seq![idt] + rest0);
                                            lemma_toks_deep_cons(idt, rest0);
                                        }
                                        Ok((rest, n2))
                                    },
                                    Err(e) => Err(e),
                                }
                            },
                            None => Err(RewriteError::MalformedLiteral),
                        }
                    }
                } else if chars_eq_str(name, "__SYMBOLIQUE_GEN_NZ_INCREMENTAL_ID") {
                    if next == 0xFFFF_FFFFu32 {
                        Err(RewriteError::IdExhausted)
                    } else {
                        let mut text = render_dec(next);
                        text.push('u');
                        text.push('3');
                        text.push('2');
                        proof {
                            reveal_strlit("u32");
                            assert(text@ =~= dec_chars(next) + "u32"@);
                        }
                        match rewrite_from(ts, i + 1, salt, next + 1) {
                            Ok((mut rest, n2)) => {
                                let lit = Token::Lit(text, *p);
                                let ghost rest0 = rest@;
                                rest.insert(0, lit);
                                proof {
                                    assert(rest@ =~= seq![lit] + rest0);
                                    lemma_toks_deep_cons(lit, rest0);
                                }
                                Ok((rest, n2))
                            },
                            Err(e) => Err(e),
                        }
                    }
                } else if chars_eq_str(name, "__SYMBOLIQUE_DOLLAR") {
                    match rewrite_from(ts, i + 1, salt, next) {
                        Ok((mut rest, n2)) => {
                            let pt = Token::Punct('$', Spacing::Alone, *p);
                            let ghost rest0 = rest@;
                            rest.insert(0, pt);
                            proof {
                                assert(rest@ =~= seq![pt] + rest0);
                                lemma_toks_deep_cons(pt, rest0);
                            }
                            Ok((rest, n2))
                        },
                        Err(e) => Err(e),
                    }
                } else if chars_eq_str(name, "__SYMBOLIQUE_SKIP") {
                    if i + 1 == ts.len() {
                        rewrite_from(ts, i + 1, salt, next)
                    } else {
                        proof {
                            assert(d[1] == toks_deep(ts@)[i + 1]);
                            assert(d[1] == ts@[i + 1].deep());
                            assert(d.drop_first().drop_first() =~= toks_deep(ts@).skip(i + 2));
                            lemma_toks_size_drop(d.drop_first());
                        }
                        let copied = dup_token(&ts[i + 1]);
                        match rewrite_from(ts, i + 2, salt, next) {
                            Ok((mut rest, n2)) => {
                                let ghost rest0 = rest@;
                                rest.insert(0, copied);
                                proof {
                                    assert(rest@ =~= seq![copied] + rest0);
                                    lemma_toks_deep_cons(copied, rest0);
                                }
                                Ok((rest, n2))
                            },
                            Err(e) => Err(e),
                        }
                    }
                } else {
                    let copied = dup_token(&ts[i]);
                    match rewrite_from(ts, i + 1, salt, next) {
                        Ok((mut rest, n2)) => {
                            let ghost rest0 = rest@;
                            rest.insert(0, copied);
                            proof {
                                assert(rest@ =~= seq![copied] + rest0);
                                lemma_toks_deep_cons(copied, rest0);
                            }
                            Ok((rest, n2))
                        },
                        Err(e) => Err(e),
                    }
                }
            },
            _ => {
                let copied = dup_token(&ts[i]);
                match rewrite_from(ts, i + 1, salt, next) {
                    Ok((mut rest, n2)) => {
                        let ghost rest0 = rest@;
                        rest.insert(0, copied);
                        proof {
                            assert(rest@ =~= seq![copied] + rest0);
                            lemma_toks_deep_cons(copied, rest0);
                        }
                        Ok((rest, n2))
                    },
                    Err(e) => Err(e),
                }
            },
        }
    }
}

/// Rewrites a whole token stream with the given state, replacing directives
/// as `rw` describes. On success the state's counter has advanced past the
/// ids that were handed out; on failure the state is unchanged. The salt is
/// never modified.
pub fn rewrite(ts: &Vec<Token>, st: &mut RewriteState) -> (r: Result<Vec<Token>, RewriteError>)
    ensures
        final(st).salt == old(st).salt,
        ({
            let sp = rw(toks_deep(ts@), old(st).salt, old(st).next_id);
            match (r, sp) {
                (Ok(out), Ok((o2, n2))) => toks_deep(out@) == o2 && final(st).next_id == n2,
                (Err(a), Err(b)) => a == b && final(st).next_id == old(st).next_id,
                _ => false,
            }
        }),
{
    proof {
        assert(toks_deep(ts@).skip(0) =~= toks_deep(ts@));
    }
    match rewrite_from(ts, 0, st.salt, st.next_id) {
        Ok((out, n)) => {
            st.next_id = n;
            Ok(out)
        },
        Err(e) => Err(e),
    }
}

/// Exhaustion: an id directive reached with the counter at its final value
/// aborts the whole rewrite, whatever follows.
pub proof fn lemma_id_exhaustion(rest: Seq<TokView>, salt: u128, p: u32)
    ensures
        rw(seq![TokView::Ident(kw_gen_id(), p)] + rest, salt, 0xFFFF_FFFFu32) == Err::<
            (Seq<TokView>, u32),
            RewriteError,
        >(RewriteError::IdExhausted),
{
    lemma_kw_distinct();
    let ts = seq![TokView::Ident(kw_gen_id(), p)] + rest;
    assert(ts[0] == TokView::Ident(kw_gen_id(), p));
}

} // verus!
