//! The path extractor on its own.

use inside_out_expand::{pop_macro_path, Delimiter, ExpandError, Malformation, Token};

fn ident(name: &str) -> Token {
    Token::Identifier(String::from(name))
}

fn colon() -> Token {
    Token::Punctuation(':')
}

#[test]
fn bare_name_is_taken_alone() {
    let mut tokens = vec![ident("x"), Token::Punctuation('='), ident("stringify")];
    let path = pop_macro_path(&mut tokens);
    assert_eq!(path, Ok(vec![ident("stringify")]));
    assert_eq!(tokens, vec![ident("x"), Token::Punctuation('=')]);
}

#[test]
fn name_alone_leaves_nothing() {
    let mut tokens = vec![ident("stringify")];
    assert_eq!(pop_macro_path(&mut tokens), Ok(vec![ident("stringify")]));
    assert_eq!(tokens, vec![]);
}

#[test]
fn qualified_name_is_taken_whole_and_in_order() {
    let mut tokens = vec![
        Token::Punctuation('+'),
        ident("a"),
        colon(),
        colon(),
        ident("b"),
        colon(),
        colon(),
        ident("name"),
    ];
    let path = pop_macro_path(&mut tokens);
    assert_eq!(
        path,
        Ok(vec![ident("a"), colon(), colon(), ident("b"), colon(), colon(), ident("name")])
    );
    assert_eq!(tokens, vec![Token::Punctuation('+')]);
}

#[test]
fn leading_separator_belongs_to_path() {
    let mut tokens = vec![
        Token::Literal(String::from("1")),
        colon(),
        colon(),
        ident("std"),
        colon(),
        colon(),
        ident("stringify"),
    ];
    let path = pop_macro_path(&mut tokens);
    assert_eq!(
        path,
        Ok(vec![colon(), colon(), ident("std"), colon(), colon(), ident("stringify")])
    );
    assert_eq!(tokens, vec![Token::Literal(String::from("1"))]);
}

#[test]
fn path_ends_at_leading_separator() {
    let mut tokens = vec![ident("a"), colon(), colon(), colon(), colon(), ident("b")];
    let path = pop_macro_path(&mut tokens);
    assert_eq!(path, Ok(vec![colon(), colon(), ident("b")]));
    assert_eq!(tokens, vec![ident("a"), colon(), colon()]);
}

#[test]
fn single_colon_is_no_separator() {
    let mut tokens = vec![ident("a"), colon(), ident("b")];
    assert_eq!(pop_macro_path(&mut tokens), Ok(vec![ident("b")]));
    assert_eq!(tokens, vec![ident("a"), colon()]);
}

#[test]
fn adjacent_identifiers_are_not_joined() {
    let mut tokens = vec![ident("a"), ident("b")];
    assert_eq!(pop_macro_path(&mut tokens), Ok(vec![ident("b")]));
    assert_eq!(tokens, vec![ident("a")]);
}

#[test]
fn other_punctuation_does_not_qualify() {
    let mut tokens = vec![ident("a"), colon(), Token::Punctuation('.'), ident("b")];
    assert_eq!(pop_macro_path(&mut tokens), Ok(vec![ident("b")]));
    assert_eq!(tokens.len(), 3);
}

#[test]
fn missing_name_is_an_error_and_nothing_is_taken() {
    let candidates = vec![
        vec![],
        vec![Token::Literal(String::from("\"s\""))],
        vec![ident("a"), Token::Punctuation('+')],
        vec![ident("a"), colon(), colon()],
        vec![ident("a"), Token::Group(Delimiter::Parenthesis, vec![ident("b")])],
    ];
    for candidate in candidates {
        let mut tokens = candidate.clone();
        assert_eq!(
            pop_macro_path(&mut tokens),
            Err(ExpandError::MalformedInput(Malformation::MissingName))
        );
        assert_eq!(tokens, candidate);
    }
}
