//! Tokens of a chain: caller words, and the two sentinels that mark where a sequence begins
//! and ends.
use vstd::prelude::*;

verus! {

/// A token as the chain stores it. The sentinels are variants of their own, so no word can
/// be mistaken for one.
#[derive(Debug)]
pub enum Token {
    Start,
    End,
    Word(String),
}

/// The mathematical value of a token.
pub enum TokenView {
    Start,
    End,
    Word(Seq<char>),
}

impl View for Token {
    type V = TokenView;

    open spec fn view(&self) -> TokenView {
        match self {
            Token::Start => TokenView::Start,
            Token::End => TokenView::End,
            Token::Word(w) => TokenView::Word(w@),
        }
    }
}

/// The views of a sequence of tokens.
pub open spec fn tokens_view(s: Seq<Token>) -> Seq<TokenView> {
    s.map_values(|t: Token| t@)
}

/// A window of `n` start markers: the context at the beginning of every sequence.
pub open spec fn start_context(n: nat) -> Seq<TokenView> {
    Seq::new(n, |i: int| TokenView::Start)
}

/// The window after `t` was consumed: the oldest token leaves, `t` becomes the newest.
/// A window of length zero stays empty.
pub open spec fn shift(ctx: Seq<TokenView>, t: TokenView) -> Seq<TokenView> {
    if ctx.len() == 0 {
        ctx
    } else {
        ctx.drop_first().push(t)
    }
}

pub proof fn lemma_tokens_view_push(s: Seq<Token>, t: Token)
    ensures
        tokens_view(s.push(t)) == tokens_view(s).push(t@),
{
    assert(tokens_view(s.push(t)) =~= tokens_view(s).push(t@));
}

impl Token {
    /// A word token holding a copy of `w`.
    pub fn word(w: &str) -> (r: Token)
        ensures
            r@ == TokenView::Word(w@),
    {
        Token::Word(w.to_string())
    }

    /// A copy of this token.
    pub fn duplicate(&self) -> (r: Token)
        ensures
            r@ == self@,
    {
        match self {
            Token::Start => Token::Start,
            Token::End => Token::End,
            Token::Word(w) => Token::Word(w.clone()),
        }
    }

    /// Whether two tokens are the same value.
    pub fn same(&self, other: &Token) -> (r: bool)
        ensures
            r == (self@ == other@),
    {
        match self {
            Token::Start => matches!(other, Token::Start),
            Token::End => matches!(other, Token::End),
            Token::Word(a) => match other {
                Token::Word(b) => a.eq(b),
                _ => false,
            },
        }
    }
}

/// Whether two windows hold the same tokens in the same order.
pub fn same_tokens(a: &Vec<Token>, b: &Vec<Token>) -> (r: bool)
    ensures
        r == (tokens_view(a@) == tokens_view(b@)),
{
    if a.len() != b.len() {
        return false;
    }
    let mut i: usize = 0;
    while i < a.len()
        invariant
            a.len() == b.len(),
            i <= a.len(),
            forall|j: int| 0 <= j < i ==> a@[j]@ == b@[j]@,
        decreases a.len() - i,
    {
        if !a[i].same(&b[i]) {
            assert(tokens_view(a@)[i as int] != tokens_view(b@)[i as int]);
            return false;
        }
        i = i + 1;
    }
    assert(tokens_view(a@) =~= tokens_view(b@));
    true
}

/// A window of `n` start markers.
pub fn start_window(n: usize) -> (r: Vec<Token>)
    ensures
        tokens_view(r@) == start_context(n as nat),
{
    let mut r: Vec<Token> = Vec::new();
    let mut k: usize = 0;
    while k < n
        invariant
            k <= n,
            tokens_view(r@) == start_context(k as nat),
        decreases n - k,
    {
        let ghost before = r@;
        r.push(Token::Start);
        proof {
            lemma_tokens_view_push(before, Token::Start);
            assert(start_context(k as nat).push(TokenView::Start) =~= start_context((k + 1) as nat));
        }
        k = k + 1;
    }
    r
}

/// A copy of a window of tokens.
pub fn copy_tokens(a: &Vec<Token>) -> (r: Vec<Token>)
    ensures
        tokens_view(r@) == tokens_view(a@),
{
    let mut r: Vec<Token> = Vec::new();
    let mut i: usize = 0;
    while i < a.len()
        invariant
            i <= a.len(),
            tokens_view(r@) =~= tokens_view(a@.subrange(0, i as int)),
        decreases a.len() - i,
    {
        let t = a[i].duplicate();
        let ghost before = r@;
        r.push(t);
        assert(r@ == before.push(t));
        assert(a@.subrange(0, i + 1) =~= a@.subrange(0, i as int).push(a@[i as int]));
        proof {
            lemma_tokens_view_push(before, t);
            lemma_tokens_view_push(a@.subrange(0, i as int), a@[i as int]);
        }
        i = i + 1;
        assert(tokens_view(r@) =~= tokens_view(a@.subrange(0, i as int)));
    }
    assert(a@.subrange(0, a.len() as int) =~= a@);
    r
}

} // verus!
