//! What a whole expansion comes to with an oracle whose answer is a
//! function of the invocation alone, and the proof that the engine, driven
//! with such an oracle, comes to the same.
//!
//! The outcome is defined by recursion on the token tree, as the expansion
//! is described: a pass goes through a sequence from left to right; at each
//! marker it first takes the outcome of the whole expansion of the group's
//! interior, then asks the oracle about the invocation; passes are repeated
//! until one of them resolves nothing. The oracle's answers may make the
//! tokens grow without end, so the definition counts down a budget, and
//! has no value where the budget does not suffice.

use crate::error::{ExpandErrorView, Malformation};
use crate::model::{
    complete, first_marker, lemma_first_marker, marker_free, resume, scan, start,
    InvocationView, LevelView, StepView, SuspendedView, EXPANSION_LIMIT,
};
use crate::path::{ends_in_identifier, path_of, without_path};
use crate::token::TokenView;
use vstd::prelude::*;

verus! {

/// The engine after `answers` answers of `oracle`, from the event `step`
/// on. It stays where it is once the expansion is done or has failed.
pub open spec fn drive(
    oracle: spec_fn(InvocationView) -> Result<Seq<TokenView>, Seq<char>>,
    step: StepView,
    answers: nat,
) -> StepView
    decreases answers,
{
    if answers > 0 && step is Resolve {
        let waiting = step->Resolve_0;
        drive(oracle, resume(waiting, oracle(waiting.pending)), (answers - 1) as nat)
    } else {
        step
    }
}

/// The output of the rest of a pass and whether the oracle resolved an
/// invocation in it, or the error that ends the expansion. `rest` is what
/// the pass has not scanned yet, `acc` its output so far, and `performed`
/// tells whether the oracle has resolved an invocation in it before.
pub open spec fn pass_outcome(
    oracle: spec_fn(InvocationView) -> Result<Seq<TokenView>, Seq<char>>,
    strict: bool,
    rest: Seq<TokenView>,
    acc: Seq<TokenView>,
    performed: bool,
    budget: nat,
) -> Option<Result<(Seq<TokenView>, bool), ExpandErrorView>>
    decreases budget, 0nat, rest.len(),
{
    let at = first_marker(rest) as int;
    if at >= rest.len() {
        Some(Ok((acc + rest, performed)))
    } else if at + 1 < rest.len() && rest[at + 1] is Group {
        let before = acc + rest.take(at);
        let behind = rest.skip(at + 2);
        if budget == 0 {
            None
        } else {
            match outcome(oracle, strict, rest[at + 1]->Group_1, (budget - 1) as nat) {
                None => None,
                Some(Err(error)) => Some(Err(error)),
                Some(Ok(arguments)) => {
                    let invocation = InvocationView {
                        path: path_of(before),
                        delimiter: rest[at + 1]->Group_0,
                        arguments,
                    };
                    if !ends_in_identifier(before) {
                        Some(Err(ExpandErrorView::MalformedInput(Malformation::MissingName)))
                    } else {
                        match oracle(invocation) {
                            Ok(replacement) => pass_outcome(
                                oracle,
                                strict,
                                behind,
                                without_path(before) + replacement,
                                true,
                                budget,
                            ),
                            Err(detail) => if strict {
                                Some(Err(ExpandErrorView::OracleFailure(detail)))
                            } else {
                                pass_outcome(
                                    oracle,
                                    strict,
                                    behind,
                                    without_path(before) + invocation.tokens(),
                                    performed,
                                    budget,
                                )
                            },
                        }
                    }
                },
            }
        }
    } else {
        Some(Err(ExpandErrorView::MalformedInput(Malformation::MissingGroup)))
    }
}

/// The output of the passes over `tokens` and over what comes of them,
/// after `passes` earlier passes, or the error that ends the expansion.
pub open spec fn fixpoint_outcome(
    oracle: spec_fn(InvocationView) -> Result<Seq<TokenView>, Seq<char>>,
    strict: bool,
    tokens: Seq<TokenView>,
    passes: nat,
    budget: nat,
) -> Option<Result<Seq<TokenView>, ExpandErrorView>>
    decreases budget, 1nat, 0nat,
{
    match pass_outcome(oracle, strict, tokens, Seq::empty(), false, budget) {
        None => None,
        Some(Err(error)) => Some(Err(error)),
        Some(Ok((out, performed))) => if !performed {
            Some(Ok(out))
        } else if passes + 1 >= EXPANSION_LIMIT {
            Some(Err(ExpandErrorView::LimitExceeded))
        } else if budget == 0 {
            None
        } else {
            fixpoint_outcome(oracle, strict, out, passes + 1, (budget - 1) as nat)
        },
    }
}

/// The output of the expansion of `tokens`, or the error that ends it.
pub open spec fn outcome(
    oracle: spec_fn(InvocationView) -> Result<Seq<TokenView>, Seq<char>>,
    strict: bool,
    tokens: Seq<TokenView>,
    budget: nat,
) -> Option<Result<Seq<TokenView>, ExpandErrorView>>
    decreases budget, 2nat, 0nat,
{
    fixpoint_outcome(oracle, strict, tokens, 0, budget)
}

/// The last event of an expansion with the given outcome.
pub open spec fn last_step(outcome: Result<Seq<TokenView>, ExpandErrorView>) -> StepView {
    match outcome {
        Ok(out) => StepView::Done(out),
        Err(error) => StepView::Failed(error),
    }
}

/// Input without a marker outside its groups is its own outcome, with any
/// oracle, in both modes and with any budget.
pub proof fn lemma_outcome_of_reduced_input(
    oracle: spec_fn(InvocationView) -> Result<Seq<TokenView>, Seq<char>>,
    strict: bool,
    input: Seq<TokenView>,
    budget: nat,
)
    requires
        marker_free(input),
    ensures
        outcome(oracle, strict, input, budget) == Some(
            Ok::<Seq<TokenView>, ExpandErrorView>(input),
        ),
{
    lemma_first_marker(input);
    assert(Seq::<TokenView>::empty() + input =~= input);
}

/// The outcome of a pass does not depend on the budget, where the budget
/// suffices.
pub proof fn lemma_pass_outcome_is_stable(
    oracle: spec_fn(InvocationView) -> Result<Seq<TokenView>, Seq<char>>,
    strict: bool,
    rest: Seq<TokenView>,
    acc: Seq<TokenView>,
    performed: bool,
    budget: nat,
    larger: nat,
)
    requires
        pass_outcome(oracle, strict, rest, acc, performed, budget) is Some,
        budget <= larger,
    ensures
        pass_outcome(oracle, strict, rest, acc, performed, larger) == pass_outcome(
            oracle,
            strict,
            rest,
            acc,
            performed,
            budget,
        ),
    decreases budget, 0nat, rest.len(),
{
    let at = first_marker(rest) as int;
    if at + 1 < rest.len() && rest[at + 1] is Group {
        let before = acc + rest.take(at);
        let behind = rest.skip(at + 2);
        let interior = rest[at + 1]->Group_1;
        lemma_fixpoint_outcome_is_stable(
            oracle,
            strict,
            interior,
            0,
            (budget - 1) as nat,
            (larger - 1) as nat,
        );
        assert(outcome(oracle, strict, interior, (larger - 1) as nat) == outcome(
            oracle,
            strict,
            interior,
            (budget - 1) as nat,
        ));
        match outcome(oracle, strict, interior, (budget - 1) as nat)->0 {
            Err(error) => {},
            Ok(arguments) => {
                let invocation = InvocationView {
                    path: path_of(before),
                    delimiter: rest[at + 1]->Group_0,
                    arguments,
                };
                if ends_in_identifier(before) {
                    match oracle(invocation) {
                        Ok(replacement) => {
                            lemma_pass_outcome_is_stable(
                                oracle,
                                strict,
                                behind,
                                without_path(before) + replacement,
                                true,
                                budget,
                                larger,
                            );
                        },
                        Err(detail) => {
                            if !strict {
                                lemma_pass_outcome_is_stable(
                                    oracle,
                                    strict,
                                    behind,
                                    without_path(before) + invocation.tokens(),
                                    performed,
                                    budget,
                                    larger,
                                );
                            }
                        },
                    }
                }
            },
        }
    }
}

/// The outcome of the passes over a token sequence does not depend on the
/// budget, where the budget suffices.
pub proof fn lemma_fixpoint_outcome_is_stable(
    oracle: spec_fn(InvocationView) -> Result<Seq<TokenView>, Seq<char>>,
    strict: bool,
    tokens: Seq<TokenView>,
    passes: nat,
    budget: nat,
    larger: nat,
)
    requires
        fixpoint_outcome(oracle, strict, tokens, passes, budget) is Some,
        budget <= larger,
    ensures
        fixpoint_outcome(oracle, strict, tokens, passes, larger) == fixpoint_outcome(
            oracle,
            strict,
            tokens,
            passes,
            budget,
        ),
    decreases budget, 1nat, 0nat,
{
    lemma_pass_outcome_is_stable(oracle, strict, tokens, Seq::empty(), false, budget, larger);
    match pass_outcome(oracle, strict, tokens, Seq::empty(), false, budget)->0 {
        Err(error) => {},
        Ok((out, performed)) => {
            if performed && passes + 1 < EXPANSION_LIMIT {
                lemma_fixpoint_outcome_is_stable(
                    oracle,
                    strict,
                    out,
                    passes + 1,
                    (budget - 1) as nat,
                    (larger - 1) as nat,
                );
            }
        },
    }
}

/// The outcome of an expansion does not depend on the budget, where the
/// budget suffices: an expansion has one outcome at most.
pub proof fn lemma_outcome_is_stable(
    oracle: spec_fn(InvocationView) -> Result<Seq<TokenView>, Seq<char>>,
    strict: bool,
    tokens: Seq<TokenView>,
    budget: nat,
    other: nat,
)
    requires
        outcome(oracle, strict, tokens, budget) is Some,
        outcome(oracle, strict, tokens, other) is Some,
    ensures
        outcome(oracle, strict, tokens, budget) == outcome(oracle, strict, tokens, other),
{
    if budget <= other {
        lemma_fixpoint_outcome_is_stable(oracle, strict, tokens, 0, budget, other);
    } else {
        lemma_fixpoint_outcome_is_stable(oracle, strict, tokens, 0, other, budget);
    }
}

/// Driving the engine for some answers and then for some more is driving
/// it for all of them.
pub proof fn lemma_drive_on(
    oracle: spec_fn(InvocationView) -> Result<Seq<TokenView>, Seq<char>>,
    step: StepView,
    first: nat,
    more: nat,
)
    ensures
        drive(oracle, step, first + more) == drive(oracle, drive(oracle, step, first), more),
    decreases first,
{
    if first > 0 && step is Resolve {
        let waiting = step->Resolve_0;
        lemma_drive_on(
            oracle,
            resume(waiting, oracle(waiting.pending)),
            (first - 1) as nat,
            more,
        );
    } else if first > 0 {
        lemma_drive_still(oracle, step, more);
        lemma_drive_still(oracle, step, first + more);
    }
}

/// An expansion that is done or has failed stays so.
pub proof fn lemma_drive_still(
    oracle: spec_fn(InvocationView) -> Result<Seq<TokenView>, Seq<char>>,
    step: StepView,
    answers: nat,
)
    requires
        !(step is Resolve),
    ensures
        drive(oracle, step, answers) == step,
{
}

/// The engine goes through a pass as the outcome of the pass says. Driven
/// from a level in the middle of a pass, with any levels waiting, it
/// comes, after the returned number of answers, to where it would be at
/// the end of that pass with the output of the outcome, or to the error of
/// the outcome.
pub proof fn lemma_engine_follows_pass(
    oracle: spec_fn(InvocationView) -> Result<Seq<TokenView>, Seq<char>>,
    strict: bool,
    outer: Seq<SuspendedView>,
    top: LevelView,
    budget: nat,
) -> (answers: nat)
    requires
        pass_outcome(oracle, strict, top.rest, top.acc, top.performed, budget) is Some,
    ensures
        drive(oracle, scan(strict, outer, top), answers) == (match pass_outcome(
            oracle,
            strict,
            top.rest,
            top.acc,
            top.performed,
            budget,
        )->0 {
            Ok((out, performed)) => scan(
                strict,
                outer,
                LevelView { rest: Seq::empty(), acc: out, performed, passes: top.passes },
            ),
            Err(error) => StepView::Failed(error),
        }),
    decreases budget, 0nat, top.rest.len(),
{
    let at = first_marker(top.rest) as int;
    if at >= top.rest.len() {
        let out = top.acc + top.rest;
        assert(first_marker(Seq::<TokenView>::empty()) == 0);
        assert(out + Seq::<TokenView>::empty() =~= out);
        0
    } else if at + 1 < top.rest.len() && top.rest[at + 1] is Group {
        let before = top.acc + top.rest.take(at);
        let behind = top.rest.skip(at + 2);
        let waiting = SuspendedView {
            level: LevelView {
                rest: behind,
                acc: before,
                performed: top.performed,
                passes: top.passes,
            },
            delimiter: top.rest[at + 1]->Group_0,
        };
        let stack = outer.push(waiting);
        let interior = top.rest[at + 1]->Group_1;
        let inner = outcome(oracle, strict, interior, (budget - 1) as nat);
        let within = lemma_engine_follows_fixpoint(
            oracle,
            strict,
            stack,
            interior,
            0,
            (budget - 1) as nat,
        );
        assert(scan(strict, outer, top) == scan(strict, stack, LevelView::fresh(interior)));
        match inner->0 {
            Err(error) => within,
            Ok(arguments) => {
                assert(stack.last() == waiting);
                assert(stack.drop_last() =~= outer);
                if !ends_in_identifier(before) {
                    within
                } else {
                    let invocation = InvocationView {
                        path: path_of(before),
                        delimiter: waiting.delimiter,
                        arguments,
                    };
                    let request = complete(strict, stack, arguments);
                    let answered = resume(request->Resolve_0, oracle(invocation));
                    let after = match oracle(invocation) {
                        Ok(replacement) => lemma_engine_follows_pass(
                            oracle,
                            strict,
                            outer,
                            LevelView {
                                rest: behind,
                                acc: without_path(before) + replacement,
                                performed: true,
                                passes: top.passes,
                            },
                            budget,
                        ),
                        Err(detail) => if strict {
                            0nat
                        } else {
                            lemma_engine_follows_pass(
                                oracle,
                                strict,
                                outer,
                                LevelView {
                                    rest: behind,
                                    acc: without_path(before) + invocation.tokens(),
                                    performed: top.performed,
                                    passes: top.passes,
                                },
                                budget,
                            )
                        },
                    };
                    assert(drive(oracle, request, 1 + after) == drive(oracle, answered, after));
                    lemma_drive_on(oracle, scan(strict, outer, top), within, 1 + after);
                    within + 1 + after
                }
            },
        }
    } else {
        0
    }
}

/// The engine goes through the passes over a token sequence as the outcome
/// says. Driven from the start of a pass over `tokens`, with any levels
/// waiting, it comes, after the returned number of answers, to the end of
/// that level with the output of the outcome, or to the error of the
/// outcome.
pub proof fn lemma_engine_follows_fixpoint(
    oracle: spec_fn(InvocationView) -> Result<Seq<TokenView>, Seq<char>>,
    strict: bool,
    outer: Seq<SuspendedView>,
    tokens: Seq<TokenView>,
    passes: nat,
    budget: nat,
) -> (answers: nat)
    requires
        fixpoint_outcome(oracle, strict, tokens, passes, budget) is Some,
    ensures
        drive(
            oracle,
            scan(
                strict,
                outer,
                LevelView { rest: tokens, acc: Seq::empty(), performed: false, passes },
            ),
            answers,
        ) == (match fixpoint_outcome(oracle, strict, tokens, passes, budget)->0 {
            Ok(out) => complete(strict, outer, out),
            Err(error) => StepView::Failed(error),
        }),
    decreases budget, 1nat, 0nat,
{
    let top = LevelView { rest: tokens, acc: Seq::empty(), performed: false, passes };
    let this_pass = lemma_engine_follows_pass(oracle, strict, outer, top, budget);
    match pass_outcome(oracle, strict, tokens, Seq::empty(), false, budget)->0 {
        Err(error) => this_pass,
        Ok((out, performed)) => {
            let end = LevelView { rest: Seq::empty(), acc: out, performed, passes };
            assert(first_marker(end.rest) == 0);
            assert(end.acc + end.rest =~= out);
            if !performed || passes + 1 >= EXPANSION_LIMIT {
                this_pass
            } else {
                let later = lemma_engine_follows_fixpoint(
                    oracle,
                    strict,
                    outer,
                    out,
                    passes + 1,
                    (budget - 1) as nat,
                );
                lemma_drive_on(oracle, scan(strict, outer, top), this_pass, later);
                this_pass + later
            }
        },
    }
}

/// The engine computes the outcome. Where the expansion of `input` has an
/// outcome with the oracle, the engine, started on `input` and given the
/// oracle's answer at each request, comes to that outcome after the
/// returned number of answers: it is done with the output, or has failed
/// with the error.
pub proof fn lemma_engine_computes_outcome(
    oracle: spec_fn(InvocationView) -> Result<Seq<TokenView>, Seq<char>>,
    strict: bool,
    input: Seq<TokenView>,
    budget: nat,
) -> (answers: nat)
    requires
        outcome(oracle, strict, input, budget) is Some,
    ensures
        drive(oracle, start(input, strict), answers) == last_step(
            outcome(oracle, strict, input, budget)->0,
        ),
{
    lemma_engine_follows_fixpoint(oracle, strict, Seq::empty(), input, 0, budget)
}

} // verus!
