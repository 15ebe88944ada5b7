//! The pass engine. It scans until it needs the oracle, hands out the
//! invocation, and scans on when it is given the answer.
//!
//! The engine keeps the levels of an expansion on a stack of its own, so
//! the depth to which the groups of the input are nested costs memory, and
//! no call depth.

use crate::error::{ExpandError, ExpandErrorView, Malformation};
use crate::laws::{
    lemma_permissive_reports_no_oracle_failure, lemma_prefix_is_marker_free,
    lemma_reduced_input_is_unchanged,
};
use crate::model::{
    all_unmarked, complete, first_marker, lemma_first_marker, marker_free, resume, scan, start,
    ExpansionView, InvocationView, LevelView, StepView, SuspendedView, EXPANSION_LIMIT,
};
use crate::path::{lemma_path_len_bound, pop_macro_path};
use crate::token::{
    lemma_views_add, lemma_views_push, lemma_views_reverse, reversed, views, Delimiter, Token,
    TokenView,
};
use vstd::prelude::*;

verus! {

/// One invocation, ready for the oracle: the interior of its group has
/// been through an expansion of its own.
#[derive(Debug, PartialEq, Eq)]
pub struct Invocation {
    /// The name, with its qualifying path, as it was written.
    pub path: Vec<Token>,
    /// The delimiter of the group, as it was written.
    pub delimiter: Delimiter,
    /// The interior of the group, reduced: the output of its own
    /// expansion. In strict mode no marker is left in it, outside its
    /// groups.
    pub arguments: Vec<Token>,
}

impl View for Invocation {
    type V = InvocationView;

    open spec fn view(&self) -> InvocationView {
        InvocationView {
            path: views(self.path@),
            delimiter: self.delimiter,
            arguments: views(self.arguments@),
        }
    }
}

impl Invocation {
    /// The invocation written out: its path, the marker `!`, and its group.
    pub fn into_tokens(self) -> (tokens: Vec<Token>)
        ensures
            views(tokens@) == self@.tokens(),
    {
        let mut tokens = self.path;
        proof {
            lemma_views_push(tokens@, Token::Punctuation('!'));
            lemma_views_push(
                tokens@.push(Token::Punctuation('!')),
                Token::Group(self.delimiter, self.arguments),
            );
        }
        tokens.push(Token::Punctuation('!'));
        tokens.push(Token::Group(self.delimiter, self.arguments));
        tokens
    }
}

/// A pass in progress. `rest` holds the tokens that are not scanned yet,
/// the next one last.
#[derive(Debug)]
struct Level {
    rest: Vec<Token>,
    acc: Vec<Token>,
    performed: bool,
    passes: usize,
}

impl View for Level {
    type V = LevelView;

    closed spec fn view(&self) -> LevelView {
        LevelView {
            rest: views(self.rest@).reverse(),
            acc: views(self.acc@),
            performed: self.performed,
            passes: self.passes as nat,
        }
    }
}

impl Level {
    /// The first pass over `tokens`.
    fn fresh(tokens: Vec<Token>) -> (level: Level)
        ensures
            level@ == LevelView::fresh(views(tokens@)),
    {
        let level = Level { rest: reversed(tokens), acc: Vec::new(), performed: false, passes: 0 };
        proof {
            lemma_views_reverse(tokens@);
            assert(views(tokens@).reverse().reverse() =~= views(tokens@));
            assert(views(level.acc@) =~= Seq::<TokenView>::empty());
        }
        level
    }

    /// Takes the next token that is not scanned yet, if there is one.
    fn next(&mut self) -> (token: Option<Token>)
        ensures
            token is None <==> old(self)@.rest.len() == 0,
            token is None ==> final(self)@ == old(self)@,
            token matches Some(first) ==> first@ == old(self)@.rest[0] && final(self)@ == (LevelView {
                rest: old(self)@.rest.drop_first(),
                acc: old(self)@.acc,
                performed: old(self)@.performed,
                passes: old(self)@.passes,
            }),
    {
        let token = self.rest.pop();
        proof {
            if token is Some {
                assert(final(self)@.rest =~= old(self)@.rest.drop_first());
            }
        }
        token
    }

    /// Places `token` at the end of the output.
    fn place(&mut self, token: Token)
        ensures
            final(self)@ == (LevelView {
                rest: old(self)@.rest,
                acc: old(self)@.acc.push(token@),
                performed: old(self)@.performed,
                passes: old(self)@.passes,
            }),
    {
        proof {
            lemma_views_push(self.acc@, token);
        }
        self.acc.push(token);
    }

    /// The next pass, over the output of this one.
    fn again(self) -> (level: Level)
        requires
            self@.passes < usize::MAX,
        ensures
            level@ == (LevelView {
                rest: self@.acc,
                acc: Seq::empty(),
                performed: false,
                passes: self@.passes + 1,
            }),
    {
        let level = Level {
            rest: reversed(self.acc),
            acc: Vec::new(),
            performed: false,
            passes: self.passes + 1,
        };
        proof {
            lemma_views_reverse(self.acc@);
            assert(views(self.acc@).reverse().reverse() =~= views(self.acc@));
            assert(views(level.acc@) =~= Seq::<TokenView>::empty());
        }
        level
    }
}

/// A level that waits for the interior of a group.
#[derive(Debug)]
struct Suspended {
    level: Level,
    delimiter: Delimiter,
}

impl View for Suspended {
    type V = SuspendedView;

    closed spec fn view(&self) -> SuspendedView {
        SuspendedView { level: self.level@, delimiter: self.delimiter }
    }
}

/// The values of a stack of waiting levels.
spec fn stack_views(stack: Seq<Suspended>) -> Seq<SuspendedView> {
    Seq::new(stack.len(), |i: int| stack[i]@)
}

/// An expansion that waits for the oracle to resolve one invocation.
#[derive(Debug)]
pub struct Expansion {
    strict: bool,
    outer: Vec<Suspended>,
    top: Level,
    pending: Invocation,
}

impl Expansion {
    /// In strict mode each level of a waiting expansion is unmarked.
    #[verifier::type_invariant]
    spec fn consistent(self) -> bool {
        self.strict ==> all_unmarked(stack_views(self.outer@), self.top@)
    }
}

impl View for Expansion {
    type V = ExpansionView;

    closed spec fn view(&self) -> ExpansionView {
        ExpansionView {
            strict: self.strict,
            outer: stack_views(self.outer@),
            top: self.top@,
            pending: self.pending@,
        }
    }
}

/// What the engine has come to.
#[derive(Debug)]
pub enum Step {
    /// The oracle must resolve the expansion's pending invocation; the
    /// expansion goes on with [`Expansion::resume`].
    Resolve(Expansion),
    /// The fixpoint is reached, with this output.
    Done(Vec<Token>),
    /// The expansion is abandoned; there is no output.
    Failed(ExpandError),
}

impl View for Step {
    type V = StepView;

    open spec fn view(&self) -> StepView {
        match self {
            Step::Resolve(expansion) => StepView::Resolve(expansion@),
            Step::Done(tokens) => StepView::Done(views(tokens@)),
            Step::Failed(error) => StepView::Failed(error@),
        }
    }
}

/// The value of an answer of the oracle.
pub open spec fn answer_view(answer: Result<Vec<Token>, String>) -> Result<Seq<TokenView>, Seq<char>> {
    match answer {
        Ok(replacement) => Ok(views(replacement@)),
        Err(detail) => Err(detail@),
    }
}

/// Scanning past a token that is no marker changes nothing but the place.
proof fn lemma_scan_skip(strict: bool, outer: Seq<SuspendedView>, top: LevelView)
    requires
        top.rest.len() > 0,
        !top.rest[0].is_marker(),
    ensures
        scan(strict, outer, top) == scan(
            strict,
            outer,
            LevelView {
                rest: top.rest.drop_first(),
                acc: top.acc.push(top.rest[0]),
                performed: top.performed,
                passes: top.passes,
            },
        ),
{
    let next = LevelView {
        rest: top.rest.drop_first(),
        acc: top.acc.push(top.rest[0]),
        performed: top.performed,
        passes: top.passes,
    };
    let at = first_marker(top.rest) as int;
    let at_next = first_marker(next.rest) as int;
    lemma_first_marker(top.rest);
    lemma_first_marker(next.rest);
    assert(at == at_next + 1);
    assert(top.acc + top.rest =~= next.acc + next.rest);
    if at + 1 < top.rest.len() {
        assert(top.rest[at + 1] == next.rest[at_next + 1]);
        assert(top.rest.skip(at + 2) =~= next.rest.skip(at_next + 2));
        assert(top.acc + top.rest.take(at) =~= next.acc + next.rest.take(at_next));
    }
}

/// What scanning comes to where the pass has no token left.
proof fn lemma_scan_end(strict: bool, outer: Seq<SuspendedView>, top: LevelView)
    requires
        top.rest.len() == 0,
    ensures
        scan(strict, outer, top) == (if !top.performed {
            complete(strict, outer, top.acc)
        } else if top.passes + 1 >= EXPANSION_LIMIT {
            StepView::Failed(ExpandErrorView::LimitExceeded)
        } else {
            scan(
                strict,
                outer,
                LevelView { rest: top.acc, acc: Seq::empty(), performed: false, passes: top.passes + 1 },
            )
        }),
{
    assert(top.acc + top.rest =~= top.acc);
}

/// What scanning comes to where the next token is a marker.
proof fn lemma_scan_marker(strict: bool, outer: Seq<SuspendedView>, top: LevelView)
    requires
        top.rest.len() > 0,
        top.rest[0].is_marker(),
    ensures
        scan(strict, outer, top) == (if top.rest.len() > 1 && top.rest[1] is Group {
            scan(
                strict,
                outer.push(
                    SuspendedView {
                        level: LevelView {
                            rest: top.rest.drop_first().drop_first(),
                            acc: top.acc,
                            performed: top.performed,
                            passes: top.passes,
                        },
                        delimiter: top.rest[1]->Group_0,
                    },
                ),
                LevelView::fresh(top.rest[1]->Group_1),
            )
        } else {
            StepView::Failed(ExpandErrorView::MalformedInput(Malformation::MissingGroup))
        }),
{
    assert(first_marker(top.rest) == 0);
    assert(top.acc + top.rest.take(0) =~= top.acc);
    if top.rest.len() > 1 {
        assert(top.rest.skip(2) =~= top.rest.drop_first().drop_first());
    }
}

/// Runs the engine from the level `top`, with the levels `outer` waiting,
/// to its next event.
fn run(strict: bool, outer: Vec<Suspended>, top: Level) -> (step: Step)
    requires
        strict ==> all_unmarked(stack_views(outer@), top@),
    ensures
        step@ == scan(strict, stack_views(outer@), top@),
        strict ==> step@.reduced(),
{
    let mut stack = outer;
    let mut level = top;
    loop
        invariant
            scan(strict, stack_views(stack@), level@) == scan(strict, stack_views(outer@), top@),
            strict ==> all_unmarked(stack_views(stack@), level@),
        decreases
            (if level@.performed { 1nat } else { 0nat }),
            level@.rest,
    {
        let ghost before = level@;
        let ghost waiting = stack_views(stack@);
        match level.next() {
            None => {
                proof {
                    lemma_scan_end(strict, waiting, before);
                }
                if !level.performed {
                    return finish(strict, stack, level.acc);
                } else if level.passes >= EXPANSION_LIMIT - 1 {
                    return Step::Failed(ExpandError::LimitExceeded);
                } else {
                    level = level.again();
                }
            },
            Some(token) => {
                if token.is_marker() {
                    proof {
                        lemma_scan_marker(strict, waiting, before);
                    }
                    match level.next() {
                        Some(Token::Group(delimiter, inner)) => {
                            let ghost parent = SuspendedView { level: level@, delimiter };
                            stack.push(Suspended { level, delimiter });
                            level = Level::fresh(inner);
                            proof {
                                assert(stack_views(stack@) =~= waiting.push(parent));
                                assert(parent.level.acc == before.acc);
                            }
                        },
                        _ => {
                            return Step::Failed(
                                ExpandError::MalformedInput(Malformation::MissingGroup),
                            );
                        },
                    }
                } else {
                    proof {
                        lemma_scan_skip(strict, waiting, before);
                    }
                    level.place(token);
                }
            },
        }
    }
}

/// The event that follows when the innermost level has reached its
/// fixpoint with the output `out`.
fn finish(strict: bool, outer: Vec<Suspended>, out: Vec<Token>) -> (step: Step)
    requires
        strict ==> marker_free(views(out@)),
        strict ==> forall|i: int|
            0 <= i < outer@.len() ==> (#[trigger] stack_views(outer@)[i]).level.unmarked(),
    ensures
        step@ == complete(strict, stack_views(outer@), views(out@)),
        strict ==> step@.reduced(),
{
    let mut outer = outer;
    let ghost stack = stack_views(outer@);
    match outer.pop() {
        None => Step::Done(out),
        Some(waiting) => {
            proof {
                assert(stack.last() == waiting@);
                assert(stack_views(outer@) =~= stack.drop_last());
                assert(forall|i: int|
                    0 <= i < outer@.len() ==> (#[trigger] stack_views(outer@)[i]) == stack[i]);
            }
            let Suspended { level, delimiter } = waiting;
            let Level { rest, acc, performed, passes } = level;
            let mut acc = acc;
            proof {
                let whole = views(acc@);
                lemma_path_len_bound(whole);
                if marker_free(whole) {
                    lemma_prefix_is_marker_free(whole, whole.len() - crate::path::path_len(whole));
                }
            }
            match pop_macro_path(&mut acc) {
                Ok(path) => Step::Resolve(
                    Expansion {
                        strict,
                        outer,
                        top: Level { rest, acc, performed, passes },
                        pending: Invocation { path, delimiter, arguments: out },
                    },
                ),
                Err(error) => Step::Failed(error),
            }
        },
    }
}

/// Starts the expansion of `input` in strict mode, where a failure of the
/// oracle is fatal, and runs it to its first event.
///
/// Input without a marker outside its groups comes back unchanged. What is
/// handed out is reduced.
pub fn inside_out_expand(input: Vec<Token>) -> (step: Step)
    ensures
        step@ == start(views(input@), true),
        marker_free(views(input@)) ==> step@ == StepView::Done(views(input@)),
        step@.reduced(),
{
    let outer: Vec<Suspended> = Vec::new();
    proof {
        assert(stack_views(outer@) =~= Seq::<SuspendedView>::empty());
        if marker_free(views(input@)) {
            lemma_reduced_input_is_unchanged(views(input@), true);
        }
    }
    run(true, outer, Level::fresh(input))
}

/// Starts the expansion of `input` in permissive mode, where an invocation
/// that the oracle rejects stays in the output as it is, and runs it to its
/// first event.
///
/// Input without a marker outside its groups comes back unchanged.
pub fn inside_out_expand_ignore_expansion_failure(input: Vec<Token>) -> (step: Step)
    ensures
        step@ == start(views(input@), false),
        marker_free(views(input@)) ==> step@ == StepView::Done(views(input@)),
{
    let outer: Vec<Suspended> = Vec::new();
    proof {
        assert(stack_views(outer@) =~= Seq::<SuspendedView>::empty());
        if marker_free(views(input@)) {
            lemma_reduced_input_is_unchanged(views(input@), false);
        }
    }
    run(false, outer, Level::fresh(input))
}

impl Expansion {
    /// The invocation that the oracle is asked to resolve.
    pub fn invocation(&self) -> (pending: &Invocation)
        ensures
            pending@ == self@.pending,
    {
        &self.pending
    }

    /// Whether a failure of the oracle is fatal to this expansion.
    pub fn is_strict(&self) -> (strict: bool)
        ensures
            strict == self@.strict,
    {
        self.strict
    }

    /// Goes on with the oracle's answer to the pending invocation, to the
    /// next event.
    ///
    /// In strict mode a failure of the oracle ends the expansion with the
    /// oracle's detail, and what is handed out otherwise is reduced. In
    /// permissive mode no failure of the oracle is reported.
    pub fn resume(self, answer: Result<Vec<Token>, String>) -> (step: Step)
        ensures
            step@ == resume(self@, answer_view(answer)),
            self@.strict ==> step@.reduced(),
            self@.strict ==> (answer matches Err(detail) ==> step@ == StepView::Failed(
                ExpandErrorView::OracleFailure(detail@),
            )),
            !self@.strict ==> !(step@ matches StepView::Failed(ExpandErrorView::OracleFailure(_))),
    {
        proof {
            use_type_invariant(&self);
            if !self@.strict {
                lemma_permissive_reports_no_oracle_failure(self@, answer_view(answer));
            }
        }
        let Expansion { strict, outer, top, pending } = self;
        let Level { rest, acc, performed, passes } = top;
        let mut acc = acc;
        match answer {
            Ok(replacement) => {
                let mut replacement = replacement;
                proof {
                    lemma_views_add(acc@, replacement@);
                }
                acc.append(&mut replacement);
                run(strict, outer, Level { rest, acc, performed: true, passes })
            },
            Err(detail) => {
                if strict {
                    Step::Failed(ExpandError::OracleFailure(detail))
                } else {
                    let mut unexpanded = pending.into_tokens();
                    proof {
                        lemma_views_add(acc@, unexpanded@);
                    }
                    acc.append(&mut unexpanded);
                    run(strict, outer, Level { rest, acc, performed, passes })
                }
            },
        }
    }
}

} // verus!
