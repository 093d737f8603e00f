//! The stack of open tags during a walk over a group.

use crate::matching::{close_of, closes_at, depth, has_close, lemma_close_behind, never_underflows};
use crate::model::{future_close_len, stack_closes, stack_opens};
use crate::source::{
    in_source_order, lemma_pick_len, lemma_range_len, lemma_start_of, pick, rising, source_end,
    start_of,
};
use crate::token::TokenView;
use crate::token_group::{lemma_total_len_reverse, none_empty, total_len};
use vstd::prelude::*;

verus! {

/// What holds of the stack before the token at `i`: it holds the open tags
/// before `i` that are closed at `i` or behind it, each one level deeper than
/// the one below it.
#[verifier::opaque]
pub open spec fn stack_inv(tokens: Seq<TokenView>, stack: Seq<int>, i: int) -> bool {
    &&& 0 <= i <= tokens.len()
    &&& depth(tokens, i) == stack.len()
    &&& forall|k: int|
        0 <= k < stack.len() ==> {
            &&& 0 <= (#[trigger] stack[k]) < i
            &&& tokens[stack[k]].is_open()
            &&& depth(tokens, stack[k]) == k
            &&& has_close(tokens, stack[k])
            &&& close_of(tokens, stack[k]) >= i
        }
}

/// Before the first token the stack is empty.
pub proof fn lemma_stack_start(tokens: Seq<TokenView>)
    ensures
        stack_inv(tokens, Seq::empty(), 0),
{
    reveal(stack_inv);
}

/// The places of the close tags that a stack is waiting for, the innermost
/// first.
pub open spec fn close_places(tokens: Seq<TokenView>, stack: Seq<int>) -> Seq<int> {
    Seq::new(stack.len(), |k: int| close_of(tokens, stack[stack.len() - 1 - k]))
}

/// The open tags of a stack lie in the order of the stack, and their close
/// tags in the opposite order, all of them at `i` or behind it.
pub proof fn lemma_stack_order(tokens: Seq<TokenView>, stack: Seq<int>, i: int)
    requires
        stack_inv(tokens, stack, i),
    ensures
        0 <= i <= tokens.len(),
        rising(stack, i),
        rising(close_places(tokens, stack), tokens.len() as int),
        forall|k: int|
            0 <= k < stack.len() ==> i <= close_of(tokens, #[trigger] stack[k]) < tokens.len(),
{
    reveal(closes_at);
    reveal(stack_inv);
    assert forall|k: int| 0 <= k < stack.len() implies closes_at(
        tokens,
        #[trigger] stack[k],
        close_of(tokens, stack[k]),
    ) by {}
    assert forall|k: int, l: int| 0 <= k < l < stack.len() implies (#[trigger] stack[k]) < (
    #[trigger] stack[l]) && close_of(tokens, stack[k]) > close_of(tokens, stack[l]) by {
    }
    let places = close_places(tokens, stack);
    assert forall|k: int, l: int| 0 <= k < l < places.len() implies (#[trigger] places[k]) < (
    #[trigger] places[l]) by {
    }
    assert forall|k: int| 0 <= k < places.len() implies 0 <= #[trigger] places[k]
        < tokens.len() by {
    }
}

/// The stack is as deep as the place where it stands.
pub proof fn lemma_stack_depth(tokens: Seq<TokenView>, stack: Seq<int>, i: int)
    requires
        stack_inv(tokens, stack, i),
    ensures
        depth(tokens, i) == stack.len(),
        forall|k: int| 0 <= k < stack.len() ==> depth(tokens, #[trigger] stack[k]) == k,
{
    reveal(stack_inv);
}

/// Behind an open tag that will be closed the stack holds that tag too.
pub proof fn lemma_stack_push(tokens: Seq<TokenView>, stack: Seq<int>, i: int)
    requires
        stack_inv(tokens, stack, i),
        i < tokens.len(),
        tokens[i].is_open(),
        has_close(tokens, i),
    ensures
        stack_inv(tokens, stack.push(i), i + 1),
{
    reveal(closes_at);
    reveal(stack_inv);
    let pushed = stack.push(i);
    assert forall|k: int| 0 <= k < pushed.len() implies {
        &&& 0 <= (#[trigger] pushed[k]) < i + 1
        &&& tokens[pushed[k]].is_open()
        &&& depth(tokens, pushed[k]) == k
        &&& has_close(tokens, pushed[k])
        &&& close_of(tokens, pushed[k]) >= i + 1
    } by {}
}

/// A close tag closes the open tag on top of the stack, and behind it the
/// stack is without that tag.
pub proof fn lemma_stack_pop(tokens: Seq<TokenView>, stack: Seq<int>, i: int)
    requires
        stack_inv(tokens, stack, i),
        i < tokens.len(),
        tokens[i].is_close(),
        stack.len() > 0,
    ensures
        close_of(tokens, stack.last()) == i,
        stack_inv(tokens, stack.drop_last(), i + 1),
{
    reveal(closes_at);
    reveal(stack_inv);
    let top = stack.last();
    if close_of(tokens, top) > i {
        assert(depth(tokens, i + 1) > depth(tokens, top));
    }
    let popped = stack.drop_last();
    assert forall|k: int| 0 <= k < popped.len() implies {
        &&& 0 <= (#[trigger] popped[k]) < i + 1
        &&& tokens[popped[k]].is_open()
        &&& depth(tokens, popped[k]) == k
        &&& has_close(tokens, popped[k])
        &&& close_of(tokens, popped[k]) >= i + 1
    } by {}
}

/// A close tag finds a tag on the stack, where no close tag comes without an
/// open tag before it.
pub proof fn lemma_stack_not_empty(tokens: Seq<TokenView>, stack: Seq<int>, i: int)
    requires
        stack_inv(tokens, stack, i),
        never_underflows(tokens),
        i < tokens.len(),
        tokens[i].is_close(),
    ensures
        stack.len() > 0,
{
    reveal(never_underflows);
    reveal(stack_inv);
    assert(depth(tokens, i + 1) >= 0);
}

/// Text leaves the stack as it is.
pub proof fn lemma_stack_text(tokens: Seq<TokenView>, stack: Seq<int>, i: int)
    requires
        stack_inv(tokens, stack, i),
        i < tokens.len(),
        tokens[i].is_text(),
    ensures
        stack_inv(tokens, stack, i + 1),
        forall|k: int| 0 <= k < stack.len() ==> close_of(tokens, #[trigger] stack[k]) > i,
{
    reveal(closes_at);
    reveal(stack_inv);
    assert forall|k: int| 0 <= k < stack.len() implies close_of(tokens, #[trigger] stack[k])
        > i by {}
}

/// The stack before an open tag is the stack behind the tag that closes it.
pub proof fn lemma_stack_skip(tokens: Seq<TokenView>, stack: Seq<int>, i: int)
    requires
        stack_inv(tokens, stack, i),
        i < tokens.len(),
        tokens[i].is_open(),
        has_close(tokens, i),
    ensures
        i < close_of(tokens, i) < tokens.len(),
        stack_inv(tokens, stack, close_of(tokens, i) + 1),
{
    reveal(closes_at);
    reveal(stack_inv);
    let j = close_of(tokens, i);
    assert forall|k: int| 0 <= k < stack.len() implies close_of(tokens, #[trigger] stack[k]) >= j
        + 1 by {
    }
}

/// At the end of the group the stack is empty.
pub proof fn lemma_stack_end(tokens: Seq<TokenView>, stack: Seq<int>)
    requires
        stack_inv(tokens, stack, tokens.len() as int),
    ensures
        stack.len() == 0,
{
    reveal(closes_at);
    reveal(stack_inv);
    if stack.len() > 0 {
        assert(closes_at(tokens, stack[0], close_of(tokens, stack[0])));
    }
}

/// The open tags of a stack lie before `i` in the source, and the close tags
/// that it is waiting for lie at `i` or behind it.
pub proof fn lemma_stack_len(tokens: Seq<TokenView>, stack: Seq<int>, i: int)
    requires
        in_source_order(tokens),
        stack_inv(tokens, stack, i),
    ensures
        total_len(stack_opens(tokens, stack)) <= start_of(tokens, i),
        future_close_len(tokens, stack) + start_of(tokens, i) <= source_end(tokens),
        i < tokens.len() && !tokens[i].is_close() ==> future_close_len(tokens, stack)
            + tokens[i].end() <= source_end(tokens),
        none_empty(tokens) ==> none_empty(stack_opens(tokens, stack)) && none_empty(
            stack_closes(tokens, stack),
        ),
{
    reveal(closes_at);
    reveal(stack_inv);
    lemma_stack_order(tokens, stack, i);
    let n = tokens.len() as int;
    if stack.len() > 0 {
        lemma_pick_len(tokens, stack);
        lemma_start_of(tokens, stack.last(), i);
        let places = close_places(tokens, stack);
        let closes = stack_closes(tokens, stack);
        assert(closes.reverse() =~= pick(tokens, places));
        lemma_total_len_reverse(closes);
        lemma_pick_len(tokens, places);
        lemma_start_of(tokens, places.last(), n);
        let first = places[0];
        if first > i {
            lemma_start_of(tokens, i, first);
        }
    } else {
        if i < n {
            lemma_start_of(tokens, i, n);
        }
    }
    if none_empty(tokens) {
        assert forall|k: int| 0 <= k < stack.len() implies (#[trigger] stack_closes(
            tokens,
            stack,
        )[k]).len() > 0 by {}
    }
}

/// What a group of its own for the tokens from `i` to the tag that closes `i`
/// takes at most.
pub proof fn lemma_wrap_len(tokens: Seq<TokenView>, stack: Seq<int>, i: int)
    requires
        in_source_order(tokens),
        stack_inv(tokens, stack, i),
        i < tokens.len(),
        tokens[i].is_open(),
        has_close(tokens, i),
    ensures
        total_len(stack_opens(tokens, stack)) + total_len(
            tokens.subrange(i, close_of(tokens, i) + 1),
        ) + future_close_len(tokens, stack) <= source_end(tokens),
        tokens[i].index <= tokens[close_of(tokens, i)].end() <= source_end(tokens),
{
    let j = close_of(tokens, i);
    lemma_close_behind(tokens, i);
    lemma_stack_skip(tokens, stack, i);
    lemma_stack_len(tokens, stack, i);
    lemma_stack_len(tokens, stack, j + 1);
    lemma_range_len(tokens, i, j + 1);
    lemma_start_of(tokens, j, j + 1);
    lemma_start_of(tokens, i, j);
}

} // verus!
