//! What holds of the engine on every input.

use crate::error::ExpandErrorView;
use crate::model::{
    all_unmarked, complete, first_marker, lemma_first_marker, lift, marker_free, resume, scan,
    start, ExpansionView, LevelView, StepView, SuspendedView, EXPANSION_LIMIT,
};
use crate::path::{
    ends_in_identifier, ends_in_separator, is_path, path_len, path_of, without_path,
};
use crate::token::TokenView;
use vstd::prelude::*;

verus! {

/// Input without a marker outside its groups is its own expansion, in both
/// modes: the first pass ends the expansion, and the oracle is not asked.
pub proof fn lemma_reduced_input_is_unchanged(input: Seq<TokenView>, strict: bool)
    requires
        marker_free(input),
    ensures
        start(input, strict) == StepView::Done(input),
{
    lemma_first_marker(input);
    assert(Seq::<TokenView>::empty() + input =~= input);
}

/// The levels that wait have no influence on what the engine does above
/// them: with more levels `below`, the next event is the same, seen from
/// the larger expansion.
pub proof fn lemma_scan_within(
    strict: bool,
    below: Seq<SuspendedView>,
    outer: Seq<SuspendedView>,
    top: LevelView,
)
    ensures
        scan(strict, below + outer, top) == lift(strict, below, scan(strict, outer, top)),
    decreases
        (if top.performed { 1nat } else { 0nat }),
        top.rest,
{
    let at = first_marker(top.rest) as int;
    if at >= top.rest.len() {
        let out = top.acc + top.rest;
        if !top.performed {
            lemma_complete_within(strict, below, outer, out);
        } else if top.passes + 1 >= EXPANSION_LIMIT {
        } else {
            lemma_scan_within(
                strict,
                below,
                outer,
                LevelView { rest: out, acc: Seq::empty(), performed: false, passes: top.passes + 1 },
            );
        }
    } else if at + 1 < top.rest.len() && top.rest[at + 1] is Group {
        let waiting = SuspendedView {
            level: LevelView {
                rest: top.rest.skip(at + 2),
                acc: top.acc + top.rest.take(at),
                performed: top.performed,
                passes: top.passes,
            },
            delimiter: top.rest[at + 1]->Group_0,
        };
        assert((below + outer).push(waiting) =~= below + outer.push(waiting));
        lemma_scan_within(
            strict,
            below,
            outer.push(waiting),
            LevelView::fresh(top.rest[at + 1]->Group_1),
        );
    } else {
    }
}

/// The end of a level, with more levels `below`, is the same event, seen
/// from the larger expansion.
pub proof fn lemma_complete_within(
    strict: bool,
    below: Seq<SuspendedView>,
    outer: Seq<SuspendedView>,
    out: Seq<TokenView>,
)
    ensures
        complete(strict, below + outer, out) == lift(strict, below, complete(strict, outer, out)),
{
    if outer.len() == 0 {
        assert(below + outer =~= below);
    } else {
        assert((below + outer).drop_last() =~= below + outer.drop_last());
    }
}

/// An answer of the oracle has the same effect on an expansion whether or
/// not more levels wait below it.
pub proof fn lemma_resume_within(
    below: Seq<SuspendedView>,
    waiting: ExpansionView,
    answer: Result<Seq<TokenView>, Seq<char>>,
)
    ensures
        resume(waiting.within(below), answer) == lift(
            waiting.strict,
            below,
            resume(waiting, answer),
        ),
{
    match answer {
        Ok(replacement) => {
            lemma_scan_within(
                waiting.strict,
                below,
                waiting.outer,
                waiting.top.append(replacement).resolved(),
            );
        },
        Err(detail) => {
            if !waiting.strict {
                lemma_scan_within(
                    waiting.strict,
                    below,
                    waiting.outer,
                    waiting.top.append(waiting.pending.tokens()),
                );
            }
        },
    }
}

/// The level that waits when the engine has read the leftmost marker of
/// `top` and the group behind it.
pub open spec fn waiting_at_first_marker(top: LevelView) -> SuspendedView
    recommends
        has_invocation(top),
{
    let at = first_marker(top.rest) as int;
    SuspendedView {
        level: LevelView {
            rest: top.rest.skip(at + 2),
            acc: top.acc + top.rest.take(at),
            performed: top.performed,
            passes: top.passes,
        },
        delimiter: top.rest[at + 1]->Group_0,
    }
}

/// The tokens of `top` that are not scanned yet hold a marker, and a group
/// follows the leftmost of them.
pub open spec fn has_invocation(top: LevelView) -> bool {
    let at = first_marker(top.rest) as int;
    at + 1 < top.rest.len() && top.rest[at + 1] is Group
}

/// The interior of the group behind the leftmost marker of `top`.
pub open spec fn first_interior(top: LevelView) -> Seq<TokenView>
    recommends
        has_invocation(top),
{
    let at = first_marker(top.rest) as int;
    top.rest[at + 1]->Group_1
}

/// Where a marker and its group are next, the engine first runs the
/// expansion of the group's interior, as if that were an input of its own
/// and in the same mode: each request of that expansion is made, with the
/// invocation's level waiting. Only when the interior has reached its
/// fixpoint is the invocation itself handed to the oracle. So the oracle
/// sees an inner invocation before the one around it.
pub proof fn lemma_interior_first(strict: bool, outer: Seq<SuspendedView>, top: LevelView)
    requires
        has_invocation(top),
    ensures
        scan(strict, outer, top) == lift(
            strict,
            outer.push(waiting_at_first_marker(top)),
            start(first_interior(top), strict),
        ),
{
    let stack = outer.push(waiting_at_first_marker(top));
    lemma_scan_within(strict, stack, Seq::empty(), LevelView::fresh(first_interior(top)));
    assert(stack + Seq::<SuspendedView>::empty() =~= stack);
}

/// An interior that holds a marker outside its groups is not done before
/// the oracle was asked: the expansion of such a sequence starts with a
/// request or fails.
pub proof fn lemma_marker_needs_oracle(input: Seq<TokenView>, strict: bool)
    requires
        !marker_free(input),
    ensures
        !(start(input, strict) is Done),
{
    let top = LevelView::fresh(input);
    lemma_first_marker(input);
    if has_invocation(top) {
        lemma_interior_first(strict, Seq::empty(), top);
    }
}

/// When the interior of the group behind the leftmost marker of a level has
/// reached its fixpoint with the output `out`, the oracle is handed the
/// path that stands before that marker, as it was written, the delimiter of
/// the group, as it was written, and `out`. Nothing right of the group has
/// been scanned by then: the level's rest still begins behind the group, so
/// an invocation further right is handed to the oracle later.
pub proof fn lemma_leftmost_first(
    strict: bool,
    outer: Seq<SuspendedView>,
    top: LevelView,
    out: Seq<TokenView>,
)
    requires
        has_invocation(top),
        ends_in_identifier(top.acc + top.rest.take(first_marker(top.rest) as int)),
    ensures
        marker_free(top.rest.take(first_marker(top.rest) as int)),
        complete(strict, outer.push(waiting_at_first_marker(top)), out) matches StepView::Resolve(
            request,
        ) && {
            let at = first_marker(top.rest) as int;
            let before = top.acc + top.rest.take(at);
            &&& request.strict == strict
            &&& request.outer == outer
            &&& request.top.rest == top.rest.skip(at + 2)
            &&& request.top.acc == without_path(before)
            &&& request.top.performed == top.performed
            &&& request.top.passes == top.passes
            &&& request.pending.path == path_of(before)
            &&& request.pending.delimiter == top.rest[at + 1]->Group_0
            &&& request.pending.arguments == out
        },
{
    lemma_first_marker(top.rest);
    let stack = outer.push(waiting_at_first_marker(top));
    assert(stack.drop_last() =~= outer);
}

/// Scanning never reports a failure of the oracle: only an answer does.
pub proof fn lemma_scan_reports_no_oracle_failure(
    strict: bool,
    outer: Seq<SuspendedView>,
    top: LevelView,
)
    ensures
        !(scan(strict, outer, top) matches StepView::Failed(ExpandErrorView::OracleFailure(_))),
    decreases
        (if top.performed { 1nat } else { 0nat }),
        top.rest,
{
    let at = first_marker(top.rest) as int;
    if at >= top.rest.len() {
        let out = top.acc + top.rest;
        if top.performed && top.passes + 1 < EXPANSION_LIMIT {
            lemma_scan_reports_no_oracle_failure(
                strict,
                outer,
                LevelView { rest: out, acc: Seq::empty(), performed: false, passes: top.passes + 1 },
            );
        }
    } else if at + 1 < top.rest.len() && top.rest[at + 1] is Group {
        lemma_scan_reports_no_oracle_failure(
            strict,
            outer.push(waiting_at_first_marker(top)),
            LevelView::fresh(top.rest[at + 1]->Group_1),
        );
    } else {
    }
}

/// In strict mode a failure of the oracle ends the expansion with that
/// failure and the oracle's own detail.
pub proof fn lemma_strict_failure_is_fatal(waiting: ExpansionView, detail: Seq<char>)
    requires
        waiting.strict,
    ensures
        resume(waiting, Err(detail)) == StepView::Failed(ExpandErrorView::OracleFailure(detail)),
{
}

/// In permissive mode no answer of the oracle makes the expansion report a
/// failure of the oracle.
pub proof fn lemma_permissive_reports_no_oracle_failure(
    waiting: ExpansionView,
    answer: Result<Seq<TokenView>, Seq<char>>,
)
    requires
        !waiting.strict,
    ensures
        !(resume(waiting, answer) matches StepView::Failed(ExpandErrorView::OracleFailure(_))),
{
    match answer {
        Ok(replacement) => {
            lemma_scan_reports_no_oracle_failure(
                waiting.strict,
                waiting.outer,
                waiting.top.append(replacement).resolved(),
            );
        },
        Err(detail) => {
            lemma_scan_reports_no_oracle_failure(
                waiting.strict,
                waiting.outer,
                waiting.top.append(waiting.pending.tokens()),
            );
        },
    }
}

/// In permissive mode an invocation that the oracle rejects goes to the
/// output as it was handed out: its path, the marker, and its group with
/// the delimiter as written and the reduced interior. Where it was the last
/// invocation of the outermost level, and the oracle resolved nothing in
/// this pass, the expansion is done, and its output is what stood before
/// the invocation, the invocation, and what stands behind it.
pub proof fn lemma_permissive_pass_through(waiting: ExpansionView, detail: Seq<char>)
    requires
        !waiting.strict,
    ensures
        resume(waiting, Err(detail)) == scan(
            false,
            waiting.outer,
            waiting.top.append(waiting.pending.tokens()),
        ),
        waiting.outer.len() == 0 && !waiting.top.performed && marker_free(waiting.top.rest)
            ==> resume(waiting, Err(detail)) == StepView::Done(
            waiting.top.acc + waiting.pending.tokens() + waiting.top.rest,
        ),
{
    lemma_first_marker(waiting.top.rest);
}

/// A sequence without markers has no marker in its front part either.
pub proof fn lemma_prefix_is_marker_free(tokens: Seq<TokenView>, len: int)
    requires
        marker_free(tokens),
        0 <= len <= tokens.len(),
    ensures
        marker_free(tokens.take(len)),
{
    assert forall|i: int| 0 <= i < len implies !(#[trigger] tokens.take(len)[i]).is_marker() by {
        assert(tokens.take(len)[i] == tokens[i]);
    }
}

/// Two sequences without markers have none when joined.
pub proof fn lemma_joined_is_marker_free(left: Seq<TokenView>, right: Seq<TokenView>)
    requires
        marker_free(left),
        marker_free(right),
    ensures
        marker_free(left + right),
{
    assert forall|i: int| 0 <= i < (left + right).len() implies !(#[trigger] (left + right)[i]).is_marker() by {
        if i < left.len() {
            assert((left + right)[i] == left[i]);
        } else {
            assert((left + right)[i] == right[i - left.len()]);
        }
    }
}

/// The end of a level keeps a strict expansion unmarked, and hands out an
/// output without markers as it is.
pub proof fn lemma_strict_complete_is_reduced(outer: Seq<SuspendedView>, out: Seq<TokenView>)
    requires
        marker_free(out),
        forall|i: int| 0 <= i < outer.len() ==> (#[trigger] outer[i]).level.unmarked(),
    ensures
        complete(true, outer, out).reduced(),
        complete(true, outer, out) matches StepView::Resolve(request) ==> request.unmarked(),
{
    if outer.len() > 0 {
        let parent = outer.last();
        crate::path::lemma_path_len_bound(parent.level.acc);
        if marker_free(parent.level.acc) {
            lemma_prefix_is_marker_free(
                parent.level.acc,
                parent.level.acc.len() - path_len(parent.level.acc),
            );
        }
        assert forall|i: int| 0 <= i < outer.drop_last().len() implies (#[trigger] outer.drop_last()[i]).level.unmarked() by {
            assert(outer.drop_last()[i] == outer[i]);
        }
    }
}

/// In strict mode, scanning on from levels that are unmarked hands out only
/// what is reduced, and leaves the levels unmarked: an invocation reaches
/// the oracle only when no marker is left in its arguments, outside their
/// groups, and the output of the expansion holds none either.
pub proof fn lemma_strict_scan_is_reduced(outer: Seq<SuspendedView>, top: LevelView)
    requires
        all_unmarked(outer, top),
    ensures
        scan(true, outer, top).reduced(),
        scan(true, outer, top) matches StepView::Resolve(request) ==> request.unmarked(),
    decreases
        (if top.performed { 1nat } else { 0nat }),
        top.rest,
{
    let at = first_marker(top.rest) as int;
    lemma_first_marker(top.rest);
    if at >= top.rest.len() {
        let out = top.acc + top.rest;
        assert(top.rest.take(at) =~= top.rest);
        if !top.performed {
            lemma_joined_is_marker_free(top.acc, top.rest);
            lemma_strict_complete_is_reduced(outer, out);
        } else if top.passes + 1 >= EXPANSION_LIMIT {
        } else {
            lemma_strict_scan_is_reduced(
                outer,
                LevelView { rest: out, acc: Seq::empty(), performed: false, passes: top.passes + 1 },
            );
        }
    } else if at + 1 < top.rest.len() && top.rest[at + 1] is Group {
        let waiting = waiting_at_first_marker(top);
        if !top.performed {
            lemma_joined_is_marker_free(top.acc, top.rest.take(at));
        }
        lemma_strict_scan_is_reduced(
            outer.push(waiting),
            LevelView::fresh(top.rest[at + 1]->Group_1),
        );
    } else {
    }
}

/// In strict mode the first event of an expansion hands out only what is
/// reduced.
pub proof fn lemma_strict_start_is_reduced(input: Seq<TokenView>)
    ensures
        start(input, true).reduced(),
        start(input, true) matches StepView::Resolve(request) ==> request.unmarked(),
{
    lemma_strict_scan_is_reduced(Seq::empty(), LevelView::fresh(input));
}

/// In strict mode each event that follows an answer of the oracle hands out
/// only what is reduced.
pub proof fn lemma_strict_resume_is_reduced(
    waiting: ExpansionView,
    answer: Result<Seq<TokenView>, Seq<char>>,
)
    requires
        waiting.strict,
        waiting.unmarked(),
    ensures
        resume(waiting, answer).reduced(),
        resume(waiting, answer) matches StepView::Resolve(request) ==> request.unmarked(),
{
    if let Ok(replacement) = answer {
        lemma_strict_scan_is_reduced(waiting.outer, waiting.top.append(replacement).resolved());
    }
}

/// The output of a strict expansion is a fixpoint: the engine, started on
/// it in either mode, hands it back and asks the oracle nothing.
pub proof fn lemma_strict_output_is_fixpoint(
    waiting: ExpansionView,
    answer: Result<Seq<TokenView>, Seq<char>>,
    again_strict: bool,
)
    requires
        waiting.strict,
        waiting.unmarked(),
        resume(waiting, answer) is Done,
    ensures
        start(resume(waiting, answer)->Done_0, again_strict) == resume(waiting, answer),
{
    lemma_strict_resume_is_reduced(waiting, answer);
    lemma_reduced_input_is_unchanged(resume(waiting, answer)->Done_0, again_strict);
}

/// A pass that ends after the oracle has resolved an invocation in it, and
/// that is the last one allowed, ends the expansion with the error of the
/// limit, in both modes: no further pass is made.
pub proof fn lemma_last_pass_must_be_idle(strict: bool, outer: Seq<SuspendedView>, top: LevelView)
    requires
        marker_free(top.rest),
        top.performed,
        top.passes + 1 >= EXPANSION_LIMIT,
    ensures
        scan(strict, outer, top) == StepView::Failed(ExpandErrorView::LimitExceeded),
{
    lemma_first_marker(top.rest);
}

/// Where the tokens before a marker end with a well-formed path, and what
/// stands before that path does not continue it, the path extractor takes
/// exactly that path, however many segments it has, and leaves exactly what
/// stood before it.
pub proof fn lemma_path_round_trip(before: Seq<TokenView>, path: Seq<TokenView>)
    requires
        is_path(path),
        path[0] is Identifier ==> !ends_in_separator(before),
        !(path[0] is Identifier) ==> !ends_in_identifier(before),
    ensures
        path_len(before + path) == path.len(),
        path_of(before + path) == path,
        without_path(before + path) == before,
    decreases path.len(),
{
    let acc = before + path;
    let front = path.drop_last();
    assert(acc.last() == path.last());
    assert(acc.drop_last() =~= before + front);
    if front.len() == 0 {
        assert(before + front =~= before);
    } else {
        let rest = front.take(front.len() - 2);
        let cut = before + front;
        assert(cut[cut.len() - 1] == front[front.len() - 1]);
        assert(cut[cut.len() - 2] == front[front.len() - 2]);
        assert(cut.take(cut.len() - 2) =~= before + rest);
        if front.len() == 2 {
            assert(before + rest =~= before);
            assert(path[0] == front[0]);
            crate::path::lemma_path_len_bound(before);
        } else {
            assert(rest[0] == path[0]);
            lemma_path_round_trip(before, rest);
        }
    }
    assert(path_of(acc) =~= path);
    assert(without_path(acc) =~= before);
}

} // verus!
