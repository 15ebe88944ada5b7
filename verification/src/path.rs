//! The path extractor: finds the name of an invocation at the end of the
//! tokens that were placed before its marker, and takes it off.

use crate::error::{ExpandError, ExpandErrorView, Malformation};
use crate::token::{lemma_views_subrange, views, Token, TokenView};
use vstd::prelude::*;

verus! {

/// The last token of `acc` is an identifier.
pub open spec fn ends_in_identifier(acc: Seq<TokenView>) -> bool {
    acc.len() > 0 && acc.last() is Identifier
}

/// The last two tokens of `acc` are the separator `::`.
pub open spec fn ends_in_separator(acc: Seq<TokenView>) -> bool {
    acc.len() >= 2 && acc[acc.len() - 2].is_colon() && acc[acc.len() - 1].is_colon()
}

/// The number of tokens at the end of `acc` that form the path of an
/// invocation whose marker follows `acc`: the last identifier, then,
/// going backwards, each `::` with the identifier before it, and at last a
/// `::` that has no identifier before it. It is 0 where `acc` does not
/// end in an identifier.
pub open spec fn path_len(acc: Seq<TokenView>) -> nat
    decreases acc.len(),
{
    if ends_in_identifier(acc) {
        1 + qualifier_len(acc.drop_last())
    } else {
        0
    }
}

/// The number of tokens at the end of `acc` that qualify the path segment
/// that follows `acc`.
pub open spec fn qualifier_len(acc: Seq<TokenView>) -> nat
    decreases acc.len(),
{
    if ends_in_separator(acc) {
        2 + path_len(acc.take(acc.len() - 2))
    } else {
        0
    }
}

/// The tokens of `acc` that stay when the path at its end is taken off.
pub open spec fn without_path(acc: Seq<TokenView>) -> Seq<TokenView> {
    acc.take(acc.len() - path_len(acc))
}

/// The path at the end of `acc`, in source order.
pub open spec fn path_of(acc: Seq<TokenView>) -> Seq<TokenView> {
    acc.skip(acc.len() - path_len(acc))
}

/// A well-formed path: identifiers separated by `::`, with or without a
/// `::` in front.
pub open spec fn is_path(tokens: Seq<TokenView>) -> bool
    decreases tokens.len(),
{
    &&& ends_in_identifier(tokens)
    &&& {
        let before = tokens.drop_last();
        ||| before.len() == 0
        ||| ends_in_separator(before) && (before.len() == 2 || is_path(before.take(before.len() - 2)))
    }
}

/// The path never reaches beyond the tokens at hand.
pub proof fn lemma_path_len_bound(acc: Seq<TokenView>)
    ensures
        path_len(acc) <= acc.len(),
        qualifier_len(acc) <= acc.len(),
        ends_in_identifier(acc) <==> path_len(acc) > 0,
    decreases acc.len(),
{
    if ends_in_identifier(acc) {
        lemma_path_len_bound(acc.drop_last());
    }
    if ends_in_separator(acc) {
        lemma_path_len_bound(acc.take(acc.len() - 2));
    }
}

/// What the path extractor takes is a well-formed path.
pub proof fn lemma_extracted_is_path(acc: Seq<TokenView>)
    requires
        ends_in_identifier(acc),
    ensures
        is_path(path_of(acc)),
        path_of(acc).len() == path_len(acc),
        without_path(acc) + path_of(acc) == acc,
    decreases acc.len(),
{
    lemma_path_len_bound(acc);
    let path = path_of(acc);
    let before = acc.drop_last();
    lemma_path_len_bound(before);
    assert(without_path(acc) + path =~= acc);
    assert(path.last() == acc.last());
    if ends_in_separator(before) {
        let further = before.take(before.len() - 2);
        lemma_path_len_bound(further);
        let front = path.drop_last();
        assert(front.len() >= 2);
        assert(front[front.len() - 1] == before[before.len() - 1]);
        assert(front[front.len() - 2] == before[before.len() - 2]);
        if ends_in_identifier(further) {
            lemma_extracted_is_path(further);
            assert(front.take(front.len() - 2) =~= path_of(further));
        } else {
            assert(front.len() == 2);
        }
    } else {
        assert(path.len() == 1);
        assert(path.drop_last().len() == 0);
    }
}

/// What the path extractor takes is the longest well-formed path at the end
/// of the tokens: no longer run of tokens at their end is one.
pub proof fn lemma_path_is_longest(acc: Seq<TokenView>, len: int)
    requires
        0 < len <= acc.len(),
        is_path(acc.skip(acc.len() - len)),
    ensures
        len <= path_len(acc),
    decreases acc.len(),
{
    let run = acc.skip(acc.len() - len);
    let front = run.drop_last();
    let before = acc.drop_last();
    assert(run.last() == acc.last());
    if front.len() > 0 {
        assert(front[front.len() - 1] == before[before.len() - 1]);
        assert(front[front.len() - 2] == before[before.len() - 2]);
        if front.len() > 2 {
            let further = before.take(before.len() - 2);
            assert(front.take(front.len() - 2) =~= further.skip(further.len() - (len - 3)));
            lemma_path_is_longest(further, len - 3);
        }
    }
}

/// Takes the path of an invocation off the end of `tokens`, which hold what
/// was placed before the invocation's marker, and returns it in source order.
///
/// Fails, and leaves `tokens` as they are, where they do not end in an
/// identifier.
pub fn pop_macro_path(tokens: &mut Vec<Token>) -> (result: Result<Vec<Token>, ExpandError>)
    ensures
        result is Ok <==> ends_in_identifier(views(old(tokens)@)),
        result matches Ok(path) ==> {
            &&& old(tokens)@ == final(tokens)@ + path@
            &&& path@.len() == path_len(views(old(tokens)@))
            &&& views(path@) == path_of(views(old(tokens)@))
            &&& views(final(tokens)@) == without_path(views(old(tokens)@))
            &&& is_path(views(path@))
        },
        result matches Err(error) ==> {
            &&& error@ == ExpandErrorView::MalformedInput(Malformation::MissingName)
            &&& final(tokens)@ == old(tokens)@
        },
{
    let ghost all = views(tokens@);
    let n = tokens.len();
    if n == 0 || !tokens[n - 1].is_identifier() {
        return Err(ExpandError::MalformedInput(Malformation::MissingName));
    }
    let mut start: usize = n - 1;
    assert(all.drop_last() =~= all.take(start as int));
    loop
        invariant_except_break
            path_len(all) == (n - start) + qualifier_len(all.take(start as int)),
        invariant
            tokens@ == old(tokens)@,
            all == views(tokens@),
            n == tokens@.len(),
            start < n,
        ensures
            tokens@ == old(tokens)@,
            start < n,
            path_len(all) == n - start,
        decreases start,
    {
        if start >= 2 && tokens[start - 2].is_colon() && tokens[start - 1].is_colon() {
            let ghost before = all.take(start as int);
            assert(ends_in_separator(before));
            start = start - 2;
            assert(before.take(before.len() - 2) =~= all.take(start as int));
            if start >= 1 && tokens[start - 1].is_identifier() {
                let ghost segment = all.take(start as int);
                assert(ends_in_identifier(segment));
                start = start - 1;
                assert(segment.drop_last() =~= all.take(start as int));
            } else {
                assert(!ends_in_identifier(all.take(start as int)));
                break ;
            }
        } else {
            assert(!ends_in_separator(all.take(start as int)));
            break ;
        }
    }
    let path = tokens.split_off(start);
    proof {
        assert(old(tokens)@ =~= tokens@ + path@);
        lemma_views_subrange(old(tokens)@, 0, start as int);
        lemma_views_subrange(old(tokens)@, start as int, n as int);
        lemma_extracted_is_path(all);
    }
    Ok(path)
}

} // verus!
