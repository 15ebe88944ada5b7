//! Tokens and token sequences, with their mathematical views.

use vstd::prelude::*;

verus! {

/// The kind of bracket that encloses a group.
#[derive(Clone, Copy, Debug, PartialEq, Eq, Structural)]
pub enum Delimiter {
    Parenthesis,
    Bracket,
    Brace,
}

/// One token of a token tree. A multi-character operator is a run of
/// `Punctuation` tokens, one for each character.
#[derive(Debug, PartialEq, Eq)]
pub enum Token {
    Identifier(String),
    Punctuation(char),
    Literal(String),
    Group(Delimiter, Vec<Token>),
}

/// The mathematical value of a token.
pub enum TokenView {
    Identifier(Seq<char>),
    Punctuation(char),
    Literal(Seq<char>),
    Group(Delimiter, Seq<TokenView>),
}

/// The values of a sequence of tokens, in order.
pub open spec fn views(tokens: Seq<Token>) -> Seq<TokenView>
    decreases tokens, 0nat,
{
    Seq::new(
        tokens.len(),
        |i: int|
            if 0 <= i < tokens.len() {
                tokens[i].view()
            } else {
                TokenView::Punctuation(' ')
            },
    )
}

impl View for Token {
    type V = TokenView;

    open spec fn view(&self) -> TokenView
        decreases self, 1nat,
    {
        match self {
            Token::Identifier(text) => TokenView::Identifier(text@),
            Token::Punctuation(ch) => TokenView::Punctuation(*ch),
            Token::Literal(text) => TokenView::Literal(text@),
            Token::Group(delimiter, inner) => TokenView::Group(*delimiter, views(inner@)),
        }
    }
}

impl TokenView {
    /// The marker that turns a name and a group into an invocation.
    pub open spec fn is_marker(self) -> bool {
        self == TokenView::Punctuation('!')
    }

    /// One half of the separator `::` of a qualified path.
    pub open spec fn is_colon(self) -> bool {
        self == TokenView::Punctuation(':')
    }
}

impl Token {
    /// Whether this token is the invocation marker `!`.
    pub fn is_marker(&self) -> (b: bool)
        ensures
            b == self@.is_marker(),
    {
        match self {
            Token::Punctuation(ch) => *ch == '!',
            _ => false,
        }
    }

    /// Whether this token is the punctuation `:`.
    pub fn is_colon(&self) -> (b: bool)
        ensures
            b == self@.is_colon(),
    {
        match self {
            Token::Punctuation(ch) => *ch == ':',
            _ => false,
        }
    }

    /// Whether this token is an identifier.
    pub fn is_identifier(&self) -> (b: bool)
        ensures
            b == (self@ is Identifier),
    {
        match self {
            Token::Identifier(_) => true,
            _ => false,
        }
    }
}

impl Clone for Token {
    /// A copy with the same value, groups copied in depth.
    fn clone(&self) -> (copy: Token)
        ensures
            copy@ == self@,
        decreases self,
    {
        match self {
            Token::Identifier(text) => Token::Identifier(text.clone()),
            Token::Punctuation(ch) => Token::Punctuation(*ch),
            Token::Literal(text) => Token::Literal(text.clone()),
            Token::Group(delimiter, inner) => {
                let mut copy: Vec<Token> = Vec::new();
                let mut i: usize = 0;
                while i < inner.len()
                    invariant
                        i <= inner@.len(),
                        self is Group,
                        self->Group_1 == *inner,
                        views(copy@) == views(inner@).take(i as int),
                    decreases inner@.len() - i,
                {
                    let token = inner[i].clone();
                    proof {
                        lemma_views_push(copy@, token);
                    }
                    copy.push(token);
                    i = i + 1;
                    assert(views(copy@) =~= views(inner@).take(i as int));
                }
                assert(views(inner@).take(i as int) =~= views(inner@));
                Token::Group(*delimiter, copy)
            },
        }
    }
}

/// Taking the values commutes with appending a token.
pub proof fn lemma_views_push(tokens: Seq<Token>, token: Token)
    ensures
        views(tokens.push(token)) == views(tokens).push(token@),
{
    assert(views(tokens.push(token)) =~= views(tokens).push(token@));
}

/// Taking the values commutes with concatenation.
pub proof fn lemma_views_add(left: Seq<Token>, right: Seq<Token>)
    ensures
        views(left + right) == views(left) + views(right),
{
    assert(views(left + right) =~= views(left) + views(right));
}

/// Taking the values commutes with taking a subrange.
pub proof fn lemma_views_subrange(tokens: Seq<Token>, from: int, to: int)
    requires
        0 <= from <= to <= tokens.len(),
    ensures
        views(tokens.subrange(from, to)) == views(tokens).subrange(from, to),
{
    assert(views(tokens.subrange(from, to)) =~= views(tokens).subrange(from, to));
}

/// Taking the values commutes with reversal.
pub proof fn lemma_views_reverse(tokens: Seq<Token>)
    ensures
        views(tokens.reverse()) == views(tokens).reverse(),
{
    assert(views(tokens.reverse()) =~= views(tokens).reverse());
}

/// Reverses a vector of tokens.
pub(crate) fn reversed(tokens: Vec<Token>) -> (result: Vec<Token>)
    ensures
        result@ == tokens@.reverse(),
{
    let mut source = tokens;
    let mut result: Vec<Token> = Vec::new();
    while source.len() > 0
        invariant
            source@.len() <= tokens@.len(),
            source@ == tokens@.subrange(0, source@.len() as int),
            result@ == tokens@.subrange(source@.len() as int, tokens@.len() as int).reverse(),
        decreases source@.len(),
    {
        let token = source.pop().unwrap();
        result.push(token);
        assert(source@ =~= tokens@.subrange(0, source@.len() as int));
        assert(result@ =~= tokens@.subrange(source@.len() as int, tokens@.len() as int).reverse());
    }
    assert(result@ =~= tokens@.reverse());
    result
}

} // verus!
