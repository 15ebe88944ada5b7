//! The mathematical model of the engine: its states, and the function
//! that takes a state to the next event.
//!
//! A level is one run of the fixpoint loop over one token sequence: the
//! input of the whole expansion, or the interior of a group that follows a
//! marker. The levels of an expansion form a stack. Only the innermost is
//! scanned; every other waits for the interior of one of its groups.

use crate::error::{ExpandErrorView, Malformation};
use crate::path::{ends_in_identifier, path_of, without_path};
use crate::token::{Delimiter, TokenView};
use vstd::prelude::*;

verus! {

/// The number of passes over one token sequence after which the engine
/// gives up.
pub const EXPANSION_LIMIT: usize = 128;

/// An invocation, as it is handed to the oracle.
pub struct InvocationView {
    /// The name, with its qualifying path.
    pub path: Seq<TokenView>,
    /// The delimiter of the group as it was read.
    pub delimiter: Delimiter,
    /// The interior of the group, reduced: the output of its own
    /// expansion.
    pub arguments: Seq<TokenView>,
}

impl InvocationView {
    /// The invocation written out: the path, the marker, the group.
    pub open spec fn tokens(self) -> Seq<TokenView> {
        self.path.push(TokenView::Punctuation('!')).push(
            TokenView::Group(self.delimiter, self.arguments),
        )
    }
}

/// A pass in progress over one token sequence.
pub struct LevelView {
    /// The tokens of this pass that are not scanned yet.
    pub rest: Seq<TokenView>,
    /// The output of this pass so far.
    pub acc: Seq<TokenView>,
    /// Whether the oracle resolved an invocation in this pass.
    pub performed: bool,
    /// The number of passes that were completed before this one.
    pub passes: nat,
}

impl LevelView {
    /// The first pass over `tokens`, before anything is scanned.
    pub open spec fn fresh(tokens: Seq<TokenView>) -> LevelView {
        LevelView { rest: tokens, acc: Seq::empty(), performed: false, passes: 0 }
    }

    /// This level with `tokens` appended to its output.
    pub open spec fn append(self, tokens: Seq<TokenView>) -> LevelView {
        LevelView { rest: self.rest, acc: self.acc + tokens, performed: self.performed, passes: self.passes }
    }

    /// This level after the oracle has resolved an invocation in it.
    pub open spec fn resolved(self) -> LevelView {
        LevelView { rest: self.rest, acc: self.acc, performed: true, passes: self.passes }
    }

    /// As long as the oracle has resolved nothing in this pass, the output
    /// of the pass holds no marker outside its groups.
    pub open spec fn unmarked(self) -> bool {
        !self.performed ==> marker_free(self.acc)
    }
}

/// A level that has read a marker and a group, and waits for the group's
/// interior to be reduced.
pub struct SuspendedView {
    /// The level; its output ends with the invocation's path, and its rest
    /// begins behind the group.
    pub level: LevelView,
    /// The delimiter of the group.
    pub delimiter: Delimiter,
}

/// An expansion that waits for the oracle's answer.
pub struct ExpansionView {
    /// Whether a failure of the oracle is fatal.
    pub strict: bool,
    /// The levels that wait for an inner level, outermost first.
    pub outer: Seq<SuspendedView>,
    /// The level that holds the pending invocation.
    pub top: LevelView,
    /// The invocation that the oracle is asked to resolve.
    pub pending: InvocationView,
}

/// What the engine has come to.
pub enum StepView {
    /// The oracle must resolve the pending invocation.
    Resolve(ExpansionView),
    /// The fixpoint is reached, with this output.
    Done(Seq<TokenView>),
    /// The expansion is abandoned.
    Failed(ExpandErrorView),
}

/// The index of the first marker among `tokens`, or their number if none
/// of them is a marker.
pub open spec fn first_marker(tokens: Seq<TokenView>) -> nat
    decreases tokens.len(),
{
    if tokens.len() == 0 || tokens[0].is_marker() {
        0
    } else {
        1 + first_marker(tokens.drop_first())
    }
}

/// None of `tokens` is a marker. Tokens inside groups do not count.
pub open spec fn marker_free(tokens: Seq<TokenView>) -> bool {
    forall|i: int| 0 <= i < tokens.len() ==> !(#[trigger] tokens[i]).is_marker()
}

/// Each of the levels `outer` and the level `top` is unmarked.
pub open spec fn all_unmarked(outer: Seq<SuspendedView>, top: LevelView) -> bool {
    &&& top.unmarked()
    &&& forall|i: int| 0 <= i < outer.len() ==> (#[trigger] outer[i]).level.unmarked()
}

impl StepView {
    /// What is handed out is reduced: the output of a finished expansion
    /// holds no marker outside its groups, nor do the arguments of an
    /// invocation that the oracle is asked to resolve.
    pub open spec fn reduced(self) -> bool {
        match self {
            StepView::Resolve(waiting) => marker_free(waiting.pending.arguments),
            StepView::Done(out) => marker_free(out),
            StepView::Failed(_) => true,
        }
    }
}

/// The event that follows when the interior of a group, or the whole
/// input, has reached its fixpoint with the output `out`.
///
/// With no level waiting, the expansion is done. Else the innermost waiting
/// level gives the path at the end of its output, and the invocation is
/// handed to the oracle; there is no such path if that output does not end
/// in an identifier.
pub open spec fn complete(strict: bool, outer: Seq<SuspendedView>, out: Seq<TokenView>) -> StepView {
    if outer.len() == 0 {
        StepView::Done(out)
    } else {
        let parent = outer.last();
        if ends_in_identifier(parent.level.acc) {
            StepView::Resolve(
                ExpansionView {
                    strict,
                    outer: outer.drop_last(),
                    top: LevelView {
                        rest: parent.level.rest,
                        acc: without_path(parent.level.acc),
                        performed: parent.level.performed,
                        passes: parent.level.passes,
                    },
                    pending: InvocationView {
                        path: path_of(parent.level.acc),
                        delimiter: parent.delimiter,
                        arguments: out,
                    },
                },
            )
        } else {
            StepView::Failed(ExpandErrorView::MalformedInput(Malformation::MissingName))
        }
    }
}

/// The next event of the engine when it scans on in the level `top`, with
/// the levels `outer` waiting.
///
/// The tokens before the first marker go to the output as they are, groups
/// among them too. A marker must be followed by a group: the level then
/// waits, and a fresh level scans the group's interior. Where no marker is
/// left the pass ends: after a pass in which the oracle resolved nothing
/// the level has reached its fixpoint, else its output is scanned again,
/// unless that would be one pass too many.
pub open spec fn scan(strict: bool, outer: Seq<SuspendedView>, top: LevelView) -> StepView
    decreases
        (if top.performed { 1nat } else { 0nat }),
        top.rest,
{
    let at = first_marker(top.rest) as int;
    if at >= top.rest.len() {
        let out = top.acc + top.rest;
        if !top.performed {
            complete(strict, outer, out)
        } else if top.passes + 1 >= EXPANSION_LIMIT {
            StepView::Failed(ExpandErrorView::LimitExceeded)
        } else {
            scan(
                strict,
                outer,
                LevelView { rest: out, acc: Seq::empty(), performed: false, passes: top.passes + 1 },
            )
        }
    } else if at + 1 < top.rest.len() && top.rest[at + 1] is Group {
        let waiting = SuspendedView {
            level: LevelView {
                rest: top.rest.skip(at + 2),
                acc: top.acc + top.rest.take(at),
                performed: top.performed,
                passes: top.passes,
            },
            delimiter: top.rest[at + 1]->Group_0,
        };
        scan(strict, outer.push(waiting), LevelView::fresh(top.rest[at + 1]->Group_1))
    } else {
        StepView::Failed(ExpandErrorView::MalformedInput(Malformation::MissingGroup))
    }
}

/// The first event of the expansion of `input`.
pub open spec fn start(input: Seq<TokenView>, strict: bool) -> StepView {
    scan(strict, Seq::empty(), LevelView::fresh(input))
}

/// The event that follows the oracle's answer to the pending invocation.
///
/// A replacement goes to the output in place of the invocation, and the
/// pass counts as one that resolved something. A failure is fatal in strict
/// mode; in permissive mode the invocation goes to the output as it was
/// handed out, and counts for nothing.
pub open spec fn resume(waiting: ExpansionView, answer: Result<Seq<TokenView>, Seq<char>>) -> StepView {
    match answer {
        Ok(replacement) => scan(
            waiting.strict,
            waiting.outer,
            waiting.top.append(replacement).resolved(),
        ),
        Err(detail) => if waiting.strict {
            StepView::Failed(ExpandErrorView::OracleFailure(detail))
        } else {
            scan(waiting.strict, waiting.outer, waiting.top.append(waiting.pending.tokens()))
        },
    }
}

impl ExpansionView {
    /// Each level of this expansion is unmarked.
    pub open spec fn unmarked(self) -> bool {
        all_unmarked(self.outer, self.top)
    }

    /// This expansion with the levels `below` waiting underneath its own.
    pub open spec fn within(self, below: Seq<SuspendedView>) -> ExpansionView {
        ExpansionView {
            strict: self.strict,
            outer: below + self.outer,
            top: self.top,
            pending: self.pending,
        }
    }
}

/// The event `step` of an expansion, seen from an expansion in which that
/// one is the business of the innermost of the waiting levels `below`: a
/// request to the oracle stays what it is, a failure too, and the end of
/// the inner expansion completes the interior of a group.
pub open spec fn lift(strict: bool, below: Seq<SuspendedView>, step: StepView) -> StepView {
    match step {
        StepView::Resolve(waiting) => StepView::Resolve(waiting.within(below)),
        StepView::Done(out) => complete(strict, below, out),
        StepView::Failed(error) => StepView::Failed(error),
    }
}

/// Where the first marker stands, and that no marker stands before it.
pub proof fn lemma_first_marker(tokens: Seq<TokenView>)
    ensures
        first_marker(tokens) <= tokens.len(),
        marker_free(tokens.take(first_marker(tokens) as int)),
        first_marker(tokens) < tokens.len() ==> tokens[first_marker(tokens) as int].is_marker(),
        marker_free(tokens) <==> first_marker(tokens) == tokens.len(),
    decreases tokens.len(),
{
    if tokens.len() == 0 || tokens[0].is_marker() {
    } else {
        let tail = tokens.drop_first();
        lemma_first_marker(tail);
        let at = first_marker(tokens) as int;
        assert forall|i: int| 0 <= i < at implies !(#[trigger] tokens.take(at)[i]).is_marker() by {
            if i > 0 {
                assert(tokens.take(at)[i] == tail.take(at - 1)[i - 1]);
            }
        }
        if marker_free(tokens) {
            assert forall|i: int| 0 <= i < tail.len() implies !(#[trigger] tail[i]).is_marker() by {
                assert(tail[i] == tokens[i + 1]);
            }
        }
        if at == tokens.len() {
            assert forall|i: int| 0 <= i < tokens.len() implies !(#[trigger] tokens[i]).is_marker() by {
                if i > 0 {
                    assert(tokens[i] == tail[i - 1]);
                }
            }
        }
    }
}

} // verus!
