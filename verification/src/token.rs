//! The tokens of a source, down to what names are spelled with.
use crate::seqs::{first_index, lemma_first_index};
use vstd::prelude::*;

verus! {

#[derive(Debug)]
pub enum TokenKind {
    Identifier(String),
    Dot,
    /// The end of the source.
    Eof,
    /// Any other token.
    Other,
}

/// A token and the byte offsets it stands between.
#[derive(Debug)]
pub struct Token {
    pub start: usize,
    pub kind: TokenKind,
    pub end: usize,
}

pub enum KindView {
    Identifier(Seq<char>),
    Dot,
    Eof,
    Other,
}

/// What a [`Token`] holds.
pub struct TokenView {
    pub start: usize,
    pub kind: KindView,
    pub end: usize,
}

impl View for TokenKind {
    type V = KindView;

    open spec fn view(&self) -> KindView {
        match self {
            TokenKind::Identifier(name) => KindView::Identifier(name@),
            TokenKind::Dot => KindView::Dot,
            TokenKind::Eof => KindView::Eof,
            TokenKind::Other => KindView::Other,
        }
    }
}

impl View for Token {
    type V = TokenView;

    open spec fn view(&self) -> TokenView {
        TokenView { start: self.start, kind: self.kind@, end: self.end }
    }
}

pub open spec fn token_views(tokens: Seq<Token>) -> Seq<TokenView> {
    tokens.map_values(|token: Token| token@)
}

/// Whether a lexer has nothing more to give after `token`: it is at the end, or it has stopped
/// advancing.
pub open spec fn ends_stream(token: TokenView) -> bool {
    token.kind is Eof || token.end == token.start
}

/// The tokens of a source, as far as a lexer that is asked for one after the other gets.
///
/// A token that consumes nothing leaves a lexer where it was, so one that fails to advance would be
/// asked forever. The tokens before it still answer for everything ahead of the offending byte.
pub struct TokenStream {
    tokens: Vec<Token>,
}

impl View for TokenStream {
    type V = Seq<TokenView>;

    closed spec fn view(&self) -> Seq<TokenView> {
        token_views(self.tokens@)
    }
}

impl TokenStream {
    pub fn new() -> (stream: TokenStream)
        ensures
            stream@ == Seq::<TokenView>::empty(),
    {
        let stream = TokenStream { tokens: Vec::new() };
        assert(stream@ =~= Seq::empty());
        stream
    }

    /// Take the lexer's next token. The answer is whether to ask for another.
    pub fn accept(&mut self, token: Token) -> (more: bool)
        ensures
            more == !ends_stream(token@),
            final(self)@ == if more {
                old(self)@.push(token@)
            } else {
                old(self)@
            },
    {
        let ended = match token.kind {
            TokenKind::Eof => true,
            _ => token.end == token.start,
        };
        if ended {
            return false;
        }
        let ghost before = self.tokens@;
        self.tokens.push(token);
        assert(token_views(self.tokens@) =~= token_views(before).push(token@));
        true
    }

    pub fn into_tokens(self) -> (tokens: Vec<Token>)
        ensures
            token_views(tokens@) == self@,
    {
        self.tokens
    }
}

/// What a stream that holds `taken` ends up with when it is offered `offered`, one after the other,
/// for as long as it asks for more.
pub open spec fn offered_all(taken: Seq<TokenView>, offered: Seq<TokenView>) -> Seq<TokenView>
    decreases offered.len(),
{
    if offered.len() == 0 || ends_stream(offered[0]) {
        taken
    } else {
        offered_all(taken.push(offered[0]), offered.drop_first())
    }
}

/// A stream ends up with everything before the first token that ends it.
pub proof fn streams_hold_what_comes_before_the_end(taken: Seq<TokenView>, offered: Seq<TokenView>)
    ensures
        offered_all(taken, offered) == taken + offered.take(
            first_index(offered, |token: TokenView| ends_stream(token)) as int,
        ),
    decreases offered.len(),
{
    let ends = |token: TokenView| ends_stream(token);
    lemma_first_index(offered, ends);
    if offered.len() == 0 || ends_stream(offered[0]) {
        assert(offered.take(0) =~= seq![]);
        assert(taken + seq![] =~= taken);
    } else {
        let rest = offered.drop_first();
        streams_hold_what_comes_before_the_end(taken.push(offered[0]), rest);
        lemma_first_index(rest, ends);
        let n = first_index(rest, ends) as int;
        assert(taken.push(offered[0]) + rest.take(n) =~= taken + offered.take(n + 1));
    }
}

} // verus!
