use vstd::prelude::*;

verus! {

/// Delimiter of a bracketed token group.
#[derive(Clone, Copy, PartialEq, Eq, Structural, Debug)]
pub enum Delim {
    Parenthesis,
    Brace,
    Bracket,
    /// Invisible grouping: the children belong together but no bracket
    /// character appears in the source.
    Invisible,
}

/// Whether a punctuation character joins with the token that follows it.
#[derive(Clone, Copy, PartialEq, Eq, Structural, Debug)]
pub enum Spacing {
    Alone,
    Joint,
}

/// One node of a token tree. `Group` owns its children exclusively, so trees
/// are finite and acyclic. Each node carries an opaque source position tag
/// that rewriting preserves for diagnostics.
#[derive(Debug, PartialEq, Eq)]
pub enum Token {
    Group(Delim, Vec<Token>, u32),
    Ident(Vec<char>, u32),
    Lit(Vec<char>, u32),
    Punct(char, Spacing, u32),
}

/// The mathematical model of a token tree node.
pub enum TokView {
    Group(Delim, Seq<TokView>, u32),
    Ident(Seq<char>, u32),
    Lit(Seq<char>, u32),
    Punct(char, Spacing, u32),
}

impl TokView {
    /// Source position tag of a node.
    pub open spec fn pos(self) -> u32 {
        match self {
            TokView::Group(_, _, p) => p,
            TokView::Ident(_, p) => p,
            TokView::Lit(_, p) => p,
            TokView::Punct(_, _, p) => p,
        }
    }
}

impl Token {
    /// The model of this node: the same tree with sequences for vectors.
    pub open spec fn deep(self) -> TokView
        decreases self,
    {
        match self {
            Token::Group(d, ts, p) => TokView::Group(d, toks_deep(ts@), p),
            Token::Ident(s, p) => TokView::Ident(s@, p),
            Token::Lit(s, p) => TokView::Lit(s@, p),
            Token::Punct(c, sp, p) => TokView::Punct(c, sp, p),
        }
    }

    /// Source position tag of a node.
    pub fn pos(&self) -> (p: u32)
        ensures
            p == self.deep().pos(),
    {
        match self {
            Token::Group(_, _, p) => *p,
            Token::Ident(_, p) => *p,
            Token::Lit(_, p) => *p,
            Token::Punct(_, _, p) => *p,
        }
    }
}

/// The model of a whole token stream.
pub open spec fn toks_deep(ts: Seq<Token>) -> Seq<TokView>
    decreases ts, ts.len(),
{
    if ts.len() == 0 {
        Seq::empty()
    } else {
        seq![ts[0].deep()] + toks_deep(ts.drop_first())
    }
}

pub proof fn lemma_toks_deep(ts: Seq<Token>)
    ensures
        toks_deep(ts).len() == ts.len(),
        forall|i: int| 0 <= i < ts.len() ==> toks_deep(ts)[i] == ts[i].deep(),
    decreases ts.len(),
{
    if ts.len() > 0 {
        lemma_toks_deep(ts.drop_first());
        assert forall|i: int| 0 <= i < ts.len() implies toks_deep(ts)[i] == ts[i].deep() by {
            if i > 0 {
                assert(ts.drop_first()[i - 1] == ts[i]);
            }
        }
    }
}

/// Weight of a node: every node counts one, a group also counts its children.
pub open spec fn tok_size(t: TokView) -> nat
    decreases t,
{
    match t {
        TokView::Group(_, ts, _) => 1 + toks_size(ts),
        _ => 1,
    }
}

/// Weight of a stream: the sum of the weights of its nodes.
pub open spec fn toks_size(ts: Seq<TokView>) -> nat
    decreases ts, ts.len(),
{
    if ts.len() == 0 {
        0
    } else {
        tok_size(ts[0]) + toks_size(ts.drop_first())
    }
}

pub proof fn lemma_toks_deep_cons(g: Token, rest: Seq<Token>)
    ensures
        toks_deep(seq![g] + rest) == seq![g.deep()] + toks_deep(rest),
{
    let x = seq![g] + rest;
    assert(x[0] == g);
    assert(x.drop_first() =~= rest);
}

/// A fresh copy of a token with the same model.
pub fn dup_token(t: &Token) -> (r: Token)
    ensures
        r.deep() == t.deep(),
    decreases tok_size(t.deep()), 0int,
{
    match t {
        Token::Group(d, ch, p) => {
            proof {
                assert(toks_deep(ch@).skip(0) =~= toks_deep(ch@));
            }
            let ch2 = dup_tokens(ch, 0);
            Token::Group(*d, ch2, *p)
        },
        Token::Ident(s, p) => Token::Ident(crate::chars::dup_chars(s), *p),
        Token::Lit(s, p) => Token::Lit(crate::chars::dup_chars(s), *p),
        Token::Punct(c, sp, p) => Token::Punct(*c, *sp, *p),
    }
}

/// A fresh copy of the stream suffix starting at `i`.
pub fn dup_tokens(ts: &Vec<Token>, i: usize) -> (r: Vec<Token>)
    requires
        i <= ts.len(),
    ensures
        toks_deep(r@) == toks_deep(ts@).skip(i as int),
    decreases toks_size(toks_deep(ts@).skip(i as int)), 1int,
{
    proof {
        lemma_toks_deep(ts@);
    }
    let ghost d = toks_deep(ts@).skip(i as int);
    if i == ts.len() {
        let r: Vec<Token> = Vec::new();
        proof {
            assert(d =~= Seq::<TokView>::empty());
            assert(toks_deep(r@) =~= Seq::<TokView>::empty());
        }
        r
    } else {
        proof {
            assert(d[0] == ts@[i as int].deep());
            assert(d.drop_first() =~= toks_deep(ts@).skip(i + 1));
            lemma_tok_size_pos(d[0]);
        }
        let head = dup_token(&ts[i]);
        let mut rest = dup_tokens(ts, i + 1);
        let ghost rest0 = rest@;
        rest.insert(0, head);
        proof {
            assert(rest@ =~= seq![head] + rest0);
            lemma_toks_deep_cons(head, rest0);
            assert(toks_deep(rest@) =~= d);
        }
        rest
    }
}

pub proof fn lemma_tok_size_pos(t: TokView)
    ensures
        tok_size(t) >= 1,
{
}

pub proof fn lemma_toks_size_drop(ts: Seq<TokView>)
    requires
        ts.len() > 0,
    ensures
        toks_size(ts.drop_first()) < toks_size(ts),
{
    lemma_tok_size_pos(ts[0]);
}

} // verus!
