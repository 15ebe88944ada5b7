//! The engine, driven to the end by a small oracle that works from a table
//! of rules.

use inside_out_expand::{
    inside_out_expand, inside_out_expand_ignore_expansion_failure, Delimiter, ExpandError,
    Invocation, Malformation, Step, Token,
};

fn delimiter(of: proc_macro2::Delimiter) -> Delimiter {
    match of {
        proc_macro2::Delimiter::Parenthesis => Delimiter::Parenthesis,
        proc_macro2::Delimiter::Bracket => Delimiter::Bracket,
        proc_macro2::Delimiter::Brace => Delimiter::Brace,
        proc_macro2::Delimiter::None => unreachable!("source text has no invisible groups"),
    }
}

fn convert(stream: proc_macro2::TokenStream) -> Vec<Token> {
    stream
        .into_iter()
        .map(|tree| match tree {
            proc_macro2::TokenTree::Ident(ident) => Token::Identifier(ident.to_string()),
            proc_macro2::TokenTree::Punct(punct) => Token::Punctuation(punct.as_char()),
            proc_macro2::TokenTree::Literal(literal) => Token::Literal(literal.to_string()),
            proc_macro2::TokenTree::Group(group) => {
                Token::Group(delimiter(group.delimiter()), convert(group.stream()))
            }
        })
        .collect()
}

/// The tokens of a piece of source text.
fn tokens(source: &str) -> Vec<Token> {
    convert(source.parse::<proc_macro2::TokenStream>().unwrap())
}

fn name_of(invocation: &Invocation) -> String {
    match invocation.path.last() {
        Some(Token::Identifier(name)) => name.clone(),
        other => panic!("a path ends in an identifier, not in {:?}", other),
    }
}

/// The body of a rule of the shape `(LITERAL $body:expr)`, where the
/// arguments match it and the body is a literal.
fn body_after(arguments: &[Token], first: &str) -> Result<Token, String> {
    match arguments {
        [Token::Literal(head), Token::Literal(body)] if head == first => {
            Ok(Token::Literal(body.clone()))
        }
        _ => Err(String::from("no rules expected this token in macro call")),
    }
}

/// The rules of the four macros that the scenarios use.
fn rules(invocation: &Invocation) -> Result<Vec<Token>, String> {
    match name_of(invocation).as_str() {
        "macro_a_to_end" => body_after(&invocation.arguments, "\"a\"").map(|body| vec![body]),
        "macro_b_to_a" => body_after(&invocation.arguments, "\"b\"")
            .map(|_| vec![Token::Literal(String::from("\"a\""))]),
        "macro_c_to_b" => body_after(&invocation.arguments, "\"c\"")
            .map(|_| vec![Token::Literal(String::from("\"b\""))]),
        "macro_nonlit_out" => Err(String::from("macro expansion failed")),
        other => Err(format!("cannot find macro `{}` in this scope", other)),
    }
}

/// Runs an expansion to its end, asking `oracle` whenever the engine needs
/// an answer.
fn drive(
    first: Step,
    oracle: &mut dyn FnMut(&Invocation) -> Result<Vec<Token>, String>,
) -> Result<Vec<Token>, ExpandError> {
    let mut step = first;
    loop {
        match step {
            Step::Done(output) => return Ok(output),
            Step::Failed(error) => return Err(error),
            Step::Resolve(expansion) => {
                let answer = oracle(expansion.invocation());
                step = expansion.resume(answer);
            }
        }
    }
}

fn strict(source: &str) -> Result<Vec<Token>, ExpandError> {
    drive(inside_out_expand(tokens(source)), &mut rules)
}

fn permissive(source: &str) -> Result<Vec<Token>, ExpandError> {
    drive(inside_out_expand_ignore_expansion_failure(tokens(source)), &mut rules)
}

/// What the compiler makes of the output of the permissive scenario: the
/// macro that the oracle cannot resolve stands for its argument.
fn evaluate(output: Vec<Token>) -> Vec<Token> {
    match output.as_slice() {
        [Token::Identifier(name), Token::Punctuation('!'), Token::Group(_, body)]
            if name == "macro_nonlit_out" =>
        {
            body.clone()
        }
        _ => output,
    }
}

/// An oracle that writes down the name of each invocation it is asked
/// about, and answers with the invocation's arguments.
fn recorded(first: Step, names: &mut Vec<String>) -> Result<Vec<Token>, ExpandError> {
    drive(first, &mut |invocation: &Invocation| {
        names.push(name_of(invocation));
        Ok(invocation.arguments.clone())
    })
}

#[test]
fn single_depth() {
    assert_eq!(strict("macro_a_to_end!(\"a\" \"q\")"), Ok(tokens("\"q\"")));
}

#[test]
fn double_depth_original() {
    // Asked about the outer invocation first, with the inner one still in
    // its arguments, the oracle has no rule that matches.
    let outside_in = Invocation {
        path: tokens("macro_a_to_end"),
        delimiter: Delimiter::Parenthesis,
        arguments: tokens("macro_b_to_a!(\"b\" \"q\") \"z\""),
    };
    assert_eq!(
        rules(&outside_in),
        Err(String::from("no rules expected this token in macro call"))
    );
}

#[test]
fn double_depth_reversed() {
    assert_eq!(
        strict("macro_a_to_end!(macro_b_to_a!(\"b\" \"q\") \"z\")"),
        Ok(tokens("\"z\""))
    );
}

#[test]
fn test_ignore_failed_macro_expansion() {
    let output = permissive("macro_nonlit_out!(macro_a_to_end!(\"a\" \"q\"))").unwrap();
    assert_eq!(output, tokens("macro_nonlit_out!(\"q\")"));
    let d = evaluate(output);
    assert_eq!(d, tokens("\"q\""));
}

#[test]
fn test_dont_ignore_failed_macro_expansion() {
    let error = strict("macro_nonlit_out!(macro_a_to_end!(\"a\" \"q\"))").unwrap_err();
    assert_eq!(error, ExpandError::OracleFailure(String::from("macro expansion failed")));
    assert_eq!(
        error.message(),
        "Error expanding macro invocation: macro expansion failed"
    );
}

#[test]
fn empty_input() {
    let result = strict("\"hello\"");
    assert_eq!(result, Ok(vec![Token::Literal(String::from("\"hello\""))]));
}

#[test]
fn triple_depth() {
    assert_eq!(
        strict("macro_a_to_end!(macro_b_to_a!(macro_c_to_b!(\"c\" \"q\") \"q\") \"z\")"),
        Ok(tokens("\"z\""))
    );
}

#[test]
fn bracket_delimiters() {
    assert_eq!(strict("macro_a_to_end![\"a\" \"q\"]"), Ok(tokens("\"q\"")));
}

#[test]
fn no_tokens_at_all() {
    assert_eq!(strict(""), Ok(vec![]));
    assert_eq!(permissive(""), Ok(vec![]));
}

#[test]
fn input_without_invocation_is_unchanged_and_asks_nothing() {
    let source = "let x = [1, 2] ; f (a :: b , \"s\") { y . z }";
    for start in [inside_out_expand, inside_out_expand_ignore_expansion_failure] {
        let mut asked = 0;
        let output = drive(start(tokens(source)), &mut |_| {
            asked += 1;
            Err(String::from("nothing to resolve"))
        });
        assert_eq!(output, Ok(tokens(source)));
        assert_eq!(asked, 0);
    }
}

#[test]
fn first_step_of_reduced_input_is_done() {
    match inside_out_expand(tokens("a + b")) {
        Step::Done(output) => assert_eq!(output, tokens("a + b")),
        other => panic!("expected the input back, got {:?}", other),
    }
}

#[test]
fn group_without_marker_is_not_entered() {
    let source = "{ macro_a_to_end!(\"a\" \"q\") }";
    assert_eq!(strict(source), Ok(tokens(source)));
    assert_eq!(
        strict("{ macro_b_to_a!(\"b\" \"q\") } macro_a_to_end!(\"a\" \"q\")"),
        Ok(tokens("{ macro_b_to_a!(\"b\" \"q\") } \"q\""))
    );
}

#[test]
fn inner_invocation_is_resolved_before_outer() {
    for start in [inside_out_expand, inside_out_expand_ignore_expansion_failure] {
        let mut names = Vec::new();
        let output = recorded(start(tokens("a!(b!(1))")), &mut names);
        assert_eq!(names, ["b", "a"]);
        assert_eq!(output, Ok(tokens("1")));
    }
}

#[test]
fn deepest_invocation_is_resolved_first() {
    let mut names = Vec::new();
    let output = recorded(inside_out_expand(tokens("a!(b!(c!(1) d!(2)) e!(3)) f!(4)")), &mut names);
    assert_eq!(names, ["c", "d", "b", "e", "a", "f"]);
    assert_eq!(output, Ok(tokens("1 2 3 4")));
}

#[test]
fn siblings_are_resolved_left_to_right() {
    let mut names = Vec::new();
    let output = recorded(inside_out_expand(tokens("left!(1) right!(2)")), &mut names);
    assert_eq!(names, ["left", "right"]);
    assert_eq!(output, Ok(tokens("1 2")));
}

#[test]
fn right_sibling_is_unscanned_when_left_is_asked() {
    match inside_out_expand(tokens("x left!(1) y right!(2) z")) {
        Step::Resolve(expansion) => {
            assert_eq!(name_of(expansion.invocation()), "left");
            match expansion.resume(Ok(tokens("one"))) {
                Step::Resolve(next) => {
                    assert_eq!(name_of(next.invocation()), "right");
                    match next.resume(Ok(tokens("two"))) {
                        Step::Done(output) => assert_eq!(output, tokens("x one y two z")),
                        other => panic!("expected the output, got {:?}", other),
                    }
                }
                other => panic!("expected a second request, got {:?}", other),
            }
        }
        other => panic!("expected a request, got {:?}", other),
    }
}

#[test]
fn oracle_is_handed_path_delimiter_and_reduced_arguments() {
    match inside_out_expand(tokens("outer![inner!(1) 2]")) {
        Step::Resolve(expansion) => {
            assert!(expansion.is_strict());
            assert_eq!(
                *expansion.invocation(),
                Invocation {
                    path: tokens("inner"),
                    delimiter: Delimiter::Parenthesis,
                    arguments: tokens("1"),
                }
            );
            match expansion.resume(Ok(tokens("7 8"))) {
                Step::Resolve(next) => assert_eq!(
                    *next.invocation(),
                    Invocation {
                        path: tokens("outer"),
                        delimiter: Delimiter::Bracket,
                        arguments: tokens("7 8 2"),
                    }
                ),
                other => panic!("expected a request, got {:?}", other),
            }
        }
        other => panic!("expected a request, got {:?}", other),
    }
}

#[test]
fn permissive_mode_keeps_failed_invocation_verbatim() {
    assert_eq!(
        permissive("before unknown!{ macro_a_to_end!(\"a\" \"q\") x } after"),
        Ok(tokens("before unknown!{ \"q\" x } after"))
    );
}

#[test]
fn permissive_failure_does_not_count_as_resolution() {
    let mut asked = 0;
    let output = drive(
        inside_out_expand_ignore_expansion_failure(tokens("never!(1)")),
        &mut |_| {
            asked += 1;
            Err(String::from("no"))
        },
    );
    assert_eq!(output, Ok(tokens("never!(1)")));
    assert_eq!(asked, 1);
}

#[test]
fn permissive_mode_retries_failed_invocation_in_next_pass() {
    let mut names = Vec::new();
    let output = drive(
        inside_out_expand_ignore_expansion_failure(tokens("never!(1) macro_a_to_end!(\"a\" \"q\")")),
        &mut |invocation: &Invocation| {
            names.push(name_of(invocation));
            rules(invocation)
        },
    );
    assert_eq!(output, Ok(tokens("never!(1) \"q\"")));
    assert_eq!(names, ["never", "macro_a_to_end", "never"]);
}

#[test]
fn permissive_mode_hands_unresolved_inner_invocation_to_outer() {
    let mut seen = Vec::new();
    let output = drive(
        inside_out_expand_ignore_expansion_failure(tokens("outer!(inner!(1) 2)")),
        &mut |invocation: &Invocation| {
            if name_of(invocation) == "outer" {
                seen.push(invocation.arguments.clone());
                Ok(tokens("done"))
            } else {
                Err(String::from("unknown"))
            }
        },
    );
    assert_eq!(seen, [tokens("inner!(1) 2")]);
    assert_eq!(output, Ok(tokens("done")));
}

#[test]
fn strict_mode_reports_oracle_failure_with_detail() {
    assert_eq!(
        strict("before unknown!(1) after"),
        Err(ExpandError::OracleFailure(String::from(
            "cannot find macro `unknown` in this scope"
        )))
    );
}

#[test]
fn strict_mode_stops_at_first_failure() {
    let mut names = Vec::new();
    let output = drive(
        inside_out_expand(tokens("a!(1) b!(2) c!(3)")),
        &mut |invocation: &Invocation| {
            names.push(name_of(invocation));
            if name_of(invocation) == "b" {
                Err(String::from("b is broken"))
            } else {
                Ok(invocation.arguments.clone())
            }
        },
    );
    assert_eq!(output, Err(ExpandError::OracleFailure(String::from("b is broken"))));
    assert_eq!(names, ["a", "b"]);
}

#[test]
fn qualified_path_reaches_oracle_as_written() {
    let mut paths = Vec::new();
    let output = drive(
        inside_out_expand(tokens("x = a::b::name!(1) + ::std::stringify!(2)")),
        &mut |invocation: &Invocation| {
            paths.push(invocation.path.clone());
            Ok(invocation.arguments.clone())
        },
    );
    assert_eq!(paths, [tokens("a::b::name"), tokens("::std::stringify")]);
    assert_eq!(paths[0].len(), 7);
    assert_eq!(paths[1].len(), 6);
    assert_eq!(output, Ok(tokens("x = 1 + 2")));
}

#[test]
fn qualified_path_is_kept_in_unresolved_invocation() {
    assert_eq!(
        permissive("x = a::b::name!(1)"),
        Ok(tokens("x = a::b::name!(1)"))
    );
}

#[test]
fn every_delimiter_is_preserved() {
    for source in ["m!(1 2)", "m![1 2]", "m!{1 2}"] {
        assert_eq!(permissive(source), Ok(tokens(source)));
    }
    let mut delimiters = Vec::new();
    for source in ["m!(1)", "m![1]", "m!{1}"] {
        let output = drive(inside_out_expand(tokens(source)), &mut |invocation: &Invocation| {
            delimiters.push(invocation.delimiter);
            Ok(invocation.arguments.clone())
        });
        assert_eq!(output, Ok(tokens("1")));
    }
    assert_eq!(
        delimiters,
        [Delimiter::Parenthesis, Delimiter::Bracket, Delimiter::Brace]
    );
}

#[test]
fn outer_after_inner_scenario() {
    let mut names = Vec::new();
    let output = drive(
        inside_out_expand(tokens("OUTER!(INNER!(\"b\" \"q\") \"z\")")),
        &mut |invocation: &Invocation| {
            names.push(name_of(invocation));
            match (name_of(invocation).as_str(), invocation.arguments.as_slice()) {
                ("INNER", [Token::Literal(b), _]) if b == "\"b\"" => Ok(tokens("\"a\"")),
                ("OUTER", [Token::Literal(a), rest @ ..]) if a == "\"a\"" => Ok(rest.to_vec()),
                _ => Err(String::from("no rule matches")),
            }
        },
    );
    assert_eq!(names, ["INNER", "OUTER"]);
    assert_eq!(output, Ok(tokens("\"z\"")));
}

#[test]
fn replacement_with_invocation_is_resolved_in_next_pass() {
    let mut names = Vec::new();
    let output = drive(
        inside_out_expand(tokens("twice!(1) plain!(2)")),
        &mut |invocation: &Invocation| {
            names.push(name_of(invocation));
            match name_of(invocation).as_str() {
                "twice" => Ok(tokens("once!(1)")),
                _ => Ok(invocation.arguments.clone()),
            }
        },
    );
    assert_eq!(names, ["twice", "plain", "once"]);
    assert_eq!(output, Ok(tokens("1 2")));
}

/// An oracle that turns an invocation into the same invocation with
/// another delimiter.
fn respell(invocation: &Invocation) -> Result<Vec<Token>, String> {
    let other = match invocation.delimiter {
        Delimiter::Parenthesis => Delimiter::Bracket,
        _ => Delimiter::Parenthesis,
    };
    let mut again = invocation.path.clone();
    again.push(Token::Punctuation('!'));
    again.push(Token::Group(other, invocation.arguments.clone()));
    Ok(again)
}

#[test]
fn endless_expansion_hits_the_limit() {
    for start in [inside_out_expand, inside_out_expand_ignore_expansion_failure] {
        let mut asked = 0;
        let output = drive(start(tokens("again!(1)")), &mut |invocation: &Invocation| {
            asked += 1;
            respell(invocation)
        });
        assert_eq!(output, Err(ExpandError::LimitExceeded));
        assert_eq!(asked, 128);
    }
}

/// An oracle that counts down: `count!(n)` becomes `count!(n - 1)`, and
/// `count!(0)` becomes the literal `0`.
fn count_down(invocation: &Invocation) -> Result<Vec<Token>, String> {
    match invocation.arguments.as_slice() {
        [Token::Literal(number)] => match number.parse::<u32>() {
            Ok(0) => Ok(tokens("0")),
            Ok(n) => Ok(tokens(&format!("count!({})", n - 1))),
            Err(error) => Err(error.to_string()),
        },
        _ => Err(String::from("count takes one number")),
    }
}

#[test]
fn limit_allows_127_resolving_passes() {
    let mut asked = 0;
    let output = drive(inside_out_expand(tokens("count!(126)")), &mut |invocation: &Invocation| {
        asked += 1;
        count_down(invocation)
    });
    assert_eq!(output, Ok(tokens("0")));
    assert_eq!(asked, 127);
}

#[test]
fn limit_refuses_128_resolving_passes() {
    let mut asked = 0;
    let output = drive(inside_out_expand(tokens("count!(127)")), &mut |invocation: &Invocation| {
        asked += 1;
        count_down(invocation)
    });
    assert_eq!(output, Err(ExpandError::LimitExceeded));
    assert_eq!(asked, 128);
}

#[test]
fn each_group_has_its_own_limit() {
    let output = drive(
        inside_out_expand(tokens("count!(100) pass!(count!(100))")),
        &mut |invocation: &Invocation| match name_of(invocation).as_str() {
            "count" => count_down(invocation),
            _ => Ok(invocation.arguments.clone()),
        },
    );
    assert_eq!(output, Ok(tokens("0 0")));
}

#[test]
fn marker_without_group_is_malformed() {
    for source in ["a != b", "a !", "a ! b (c)", "!"] {
        assert_eq!(
            strict(source),
            Err(ExpandError::MalformedInput(Malformation::MissingGroup))
        );
        assert_eq!(
            permissive(source),
            Err(ExpandError::MalformedInput(Malformation::MissingGroup))
        );
    }
}

#[test]
fn marker_without_name_is_malformed() {
    for source in ["!(1)", "\"text\" !(1)", "a + !(1)", "(a) ![1]"] {
        assert_eq!(
            strict(source),
            Err(ExpandError::MalformedInput(Malformation::MissingName))
        );
        assert_eq!(
            permissive(source),
            Err(ExpandError::MalformedInput(Malformation::MissingName))
        );
    }
}

#[test]
fn group_is_reduced_before_name_is_missed() {
    let mut names = Vec::new();
    let output = recorded(inside_out_expand(tokens("+ !(inner!(1))")), &mut names);
    assert_eq!(output, Err(ExpandError::MalformedInput(Malformation::MissingName)));
    assert_eq!(names, ["inner"]);
}

#[test]
fn malformed_interior_fails_whole_expansion() {
    assert_eq!(
        permissive("outer!(a ! b)"),
        Err(ExpandError::MalformedInput(Malformation::MissingGroup))
    );
}

#[test]
fn invocation_is_written_out_with_marker_and_group() {
    let invocation = Invocation {
        path: tokens("a::b"),
        delimiter: Delimiter::Brace,
        arguments: tokens("1 (2)"),
    };
    assert_eq!(invocation.into_tokens(), tokens("a::b!{1 (2)}"));
}

#[test]
fn clone_copies_groups_in_depth() {
    let written = tokens("f!(a [b {c \"d\"}] ::e)");
    let copy = written.clone();
    assert_eq!(copy, written);
}

#[test]
fn tokens_know_their_kind() {
    assert!(Token::Punctuation('!').is_marker());
    assert!(!Token::Punctuation(':').is_marker());
    assert!(!Token::Identifier(String::from("!")).is_marker());
    assert!(Token::Punctuation(':').is_colon());
    assert!(!Token::Punctuation('!').is_colon());
    assert!(Token::Identifier(String::from("a")).is_identifier());
    assert!(!Token::Literal(String::from("a")).is_identifier());
    assert!(!Token::Group(Delimiter::Brace, vec![]).is_identifier());
}

#[test]
fn messages_are_for_readers() {
    assert_eq!(
        ExpandError::MalformedInput(Malformation::MissingName).message(),
        "Expected an identifier before '!' in macro invocation"
    );
    assert_eq!(
        ExpandError::MalformedInput(Malformation::MissingGroup).message(),
        "Expected a group after a '!' in the input"
    );
    assert_eq!(
        ExpandError::OracleFailure(String::from("no rules expected `x`")).message(),
        "Error expanding macro invocation: no rules expected `x`"
    );
    assert_eq!(
        ExpandError::OracleFailure(String::new()).message(),
        "Error expanding macro invocation: "
    );
    assert_eq!(
        ExpandError::LimitExceeded.message(),
        "inside_out_expand: expansion limit of 128 reached, possible infinite macro expansion"
    );
}

#[test]
fn limit_is_128() {
    assert_eq!(inside_out_expand::EXPANSION_LIMIT, 128);
}
