//! A part that is not to be split is not cut.
//!
//! Where the walk comes to an open tag whose name is on the list, the part up
//! to its close tag either fits behind what the group holds, and is then
//! taken into that group token by token without a cut; or it does not, and is
//! then moved into a group of its own as a whole.

use crate::matching::{
    close_of, closes_at, depth, has_close, lemma_close_behind, lemma_close_of, never_underflows,
};
use crate::model::{
    eject, future_close_len, lemma_step_advances, must_eject, room, stack_closes, step, step_open,
    step_text, walk_from, wrapped, SubState, Walk,
};
use crate::source::{in_source_order, lemma_pick_len, lemma_start_of, pick, rising, start_of};
use crate::stack::{
    close_places, lemma_stack_depth, lemma_stack_not_empty, lemma_stack_order, lemma_stack_pop,
    lemma_stack_push, lemma_stack_text, stack_inv,
};
use crate::token::TokenView;
use crate::token_group::{
    lemma_push_all_push, lemma_push_token_len, lemma_total_len_add, lemma_total_len_reverse,
    no_empty_tag, none_empty, push_all, push_token, total_len,
};
use vstd::prelude::*;

verus! {

/// The walk from the token at `from` up to the token at `to`: what it
/// carries when it comes to stand there; nothing when it ends in an error
/// before or steps over that place.
pub open spec fn walk_to(
    tokens: Seq<TokenView>,
    max: int,
    names: Seq<Seq<u8>>,
    st: SubState,
    from: int,
    to: int,
) -> Option<SubState>
    decreases tokens.len() - from,
{
    if from == to {
        Some(st)
    } else if from < 0 || from > to || from >= tokens.len() {
        None
    } else {
        match step(tokens, max, names, st, from) {
            Err(_) => None,
            Ok(walk) => {
                proof {
                    lemma_step_advances(tokens, max, names, st, from);
                }
                walk_to(tokens, max, names, walk.state, walk.next, to)
            },
        }
    }
}

/// Where the walk comes to stand at a place, the walk from there is the rest
/// of the walk.
pub proof fn lemma_walk_to_from(
    tokens: Seq<TokenView>,
    max: int,
    names: Seq<Seq<u8>>,
    st: SubState,
    from: int,
    to: int,
)
    requires
        walk_to(tokens, max, names, st, from, to) is Some,
    ensures
        walk_from(tokens, max, names, st, from) == walk_from(
            tokens,
            max,
            names,
            walk_to(tokens, max, names, st, from, to)->0,
            to,
        ),
    decreases tokens.len() - from,
{
    if from != to {
        match step(tokens, max, names, st, from) {
            Ok(walk) => {
                lemma_step_advances(tokens, max, names, st, from);
                lemma_walk_to_from(tokens, max, names, walk.state, walk.next, to);
            },
            Err(_) => {},
        }
    }
}

/// Inside a part that is closed more tags are open than before it, and
/// behind it as many.
proof fn lemma_part_depth(tokens: Seq<TokenView>, i: int, j: int, q: int)
    requires
        closes_at(tokens, i, j),
        i < q <= j,
    ensures
        0 <= i < j < tokens.len(),
        depth(tokens, q) > depth(tokens, i),
        depth(tokens, j + 1) == depth(tokens, i),
{
    reveal(closes_at);
}

/// The close tag of an open tag, found by the depth behind it.
proof fn lemma_close_found(tokens: Seq<TokenView>, q: int, r: int)
    requires
        0 <= q < r < tokens.len(),
        tokens[q].is_open(),
        depth(tokens, r + 1) == depth(tokens, q),
        forall|p: int| q < p <= r ==> #[trigger] depth(tokens, p) > depth(tokens, q),
    ensures
        closes_at(tokens, q, r),
{
    reveal(closes_at);
    assert(depth(tokens, r) > depth(tokens, q));
}

/// An open tag inside a part that is closed has its close tag inside that
/// part.
proof fn lemma_inner_close(tokens: Seq<TokenView>, i: int, j: int, q: int, r: int)
    requires
        closes_at(tokens, i, j),
        i < q < r <= j + 1,
        tokens[q].is_open(),
        forall|p: int| q < p <= r ==> #[trigger] depth(tokens, p) > depth(tokens, q),
    ensures
        has_close(tokens, q),
        q < close_of(tokens, q) < j,
    decreases j + 1 - r,
{
    lemma_part_depth(tokens, i, j, q);
    if r != j + 1 {
        if depth(tokens, r + 1) == depth(tokens, q) {
            lemma_close_found(tokens, q, r);
            lemma_close_of(tokens, q, r);
        } else {
            assert forall|p: int| q < p <= r + 1 implies #[trigger] depth(tokens, p) > depth(
                tokens,
                q,
            ) by {
                if p == r + 1 {
                    assert(depth(tokens, r) > depth(tokens, q));
                }
            }
            lemma_inner_close(tokens, i, j, q, r + 1);
        }
    }
}

/// The close tags that the tags above `base` of a stack are waiting for take
/// no more bytes than lie between the innermost of them and the end of the
/// outermost.
proof fn lemma_inner_closes(tokens: Seq<TokenView>, stack: Seq<int>, q: int, base: int)
    requires
        in_source_order(tokens),
        stack_inv(tokens, stack, q),
        0 <= base < stack.len(),
    ensures
        future_close_len(tokens, stack) == future_close_len(tokens, stack.take(base))
            + future_close_len(tokens, stack.skip(base)),
        future_close_len(tokens, stack.skip(base)) + tokens[close_of(tokens, stack.last())].index
            <= tokens[close_of(tokens, stack[base])].end(),
{
    lemma_stack_order(tokens, stack, q);
    let below = stack.take(base);
    let above = stack.skip(base);
    assert(stack_closes(tokens, stack) =~= stack_closes(tokens, below) + stack_closes(
        tokens,
        above,
    ));
    lemma_total_len_add(stack_closes(tokens, below), stack_closes(tokens, above));
    let all_places = close_places(tokens, stack);
    let places = close_places(tokens, above);
    assert(places =~= all_places.take(above.len() as int));
    assert(rising(places, tokens.len() as int)) by {
        assert forall|k: int, l: int| 0 <= k < l < places.len() implies (#[trigger] places[k]) < (
        #[trigger] places[l]) by {}
        assert forall|k: int| 0 <= k < places.len() implies 0 <= #[trigger] places[k]
            < tokens.len() by {}
    }
    lemma_pick_len(tokens, places);
    assert(pick(tokens, places) =~= stack_closes(tokens, above).reverse());
    lemma_total_len_reverse(stack_closes(tokens, above));
}

/// What holds of the walk inside a part that fits, before the token at `q`:
/// it has pushed the tokens of the part so far into the group, its stack is
/// the stack before the part with the tags of the part that are open, and
/// what is left of the part fits behind the group.
pub open spec fn fit_inv(
    tokens: Seq<TokenView>,
    max: int,
    start: SubState,
    i: int,
    j: int,
    q: int,
    stack: Seq<int>,
) -> bool {
    let base = start.stack.len() as int;
    &&& closes_at(tokens, i, j)
    &&& i <= q <= j + 1
    &&& stack_inv(tokens, stack, q)
    &&& stack.len() >= base
    &&& stack.take(base) == start.stack
    &&& (i < q <= j ==> stack.len() > base && stack[base] == i)
    &&& (q == i || q == j + 1 ==> stack.len() == base)
    &&& total_len(push_all(start.cur, tokens.subrange(i, q))) + future_close_len(
        tokens,
        start.stack,
    ) + (tokens[j].end() - start_of(tokens, q)) <= max
}

/// The state of the walk inside a part that fits, before the token at `q`.
pub open spec fn fit_state(
    tokens: Seq<TokenView>,
    start: SubState,
    i: int,
    q: int,
    stack: Seq<int>,
) -> SubState {
    SubState { stack: stack, cur: push_all(start.cur, tokens.subrange(i, q)), out: start.out }
}

/// The bytes of the close tags that the tags of the part are waiting for.
pub open spec fn inner_close_len(tokens: Seq<TokenView>, start: SubState, stack: Seq<int>) -> int {
    if stack.len() > start.stack.len() {
        future_close_len(tokens, stack.skip(start.stack.len() as int)) as int
    } else {
        0
    }
}

/// Inside a part that fits there is room for what is left of the part.
proof fn lemma_fit_room(
    tokens: Seq<TokenView>,
    max: int,
    start: SubState,
    i: int,
    j: int,
    q: int,
    stack: Seq<int>,
)
    requires
        in_source_order(tokens),
        fit_inv(tokens, max, start, i, j, q, stack),
    ensures
        room(tokens, max, fit_state(tokens, start, i, q, stack)) >= tokens[j].end() - start_of(
            tokens,
            q,
        ) - inner_close_len(tokens, start, stack),
        stack.len() > start.stack.len() ==> inner_close_len(tokens, start, stack)
            + tokens[close_of(tokens, stack.last())].index <= tokens[j].end(),
        stack.len() == start.stack.len() ==> stack == start.stack,
{
    let base = start.stack.len() as int;
    if stack.len() > base {
        lemma_inner_closes(tokens, stack, q, base);
        lemma_close_of(tokens, i, j);
    } else {
        assert(stack =~= start.stack);
    }
}

/// What a step inside a part that fits leaves behind.
pub open spec fn fit_step(
    tokens: Seq<TokenView>,
    max: int,
    names: Seq<Seq<u8>>,
    start: SubState,
    i: int,
    j: int,
    q: int,
    stack: Seq<int>,
    next: Seq<int>,
) -> bool {
    &&& fit_inv(tokens, max, start, i, j, q + 1, next)
    &&& step(tokens, max, names, fit_state(tokens, start, i, q, stack), q) == Ok::<
        Walk,
        crate::error::SplitErrorView,
    >(Walk { state: fit_state(tokens, start, i, q + 1, next), next: q + 1 })
}

/// The group after one more token of the part, and the room that is left.
proof fn lemma_fit_push(
    tokens: Seq<TokenView>,
    max: int,
    start: SubState,
    i: int,
    j: int,
    q: int,
    stack: Seq<int>,
)
    requires
        none_empty(tokens),
        in_source_order(tokens),
        fit_inv(tokens, max, start, i, j, q, stack),
        q <= j,
    ensures
        0 <= i <= q <= j < tokens.len(),
        push_all(start.cur, tokens.subrange(i, q + 1)) == push_token(
            push_all(start.cur, tokens.subrange(i, q)),
            tokens[q],
        ),
        total_len(push_all(start.cur, tokens.subrange(i, q + 1))) + future_close_len(
            tokens,
            start.stack,
        ) + (tokens[j].end() - start_of(tokens, q + 1)) <= max,
        tokens[q].len() > 0,
        start_of(tokens, q) == tokens[q].index,
{
    lemma_close_behind_part(tokens, i, j);
    let t = tokens[q];
    lemma_start_of(tokens, q, q + 1);
    assert(tokens.subrange(i, q + 1) =~= tokens.subrange(i, q).push(t));
    lemma_push_all_push(start.cur, tokens.subrange(i, q), t);
    lemma_push_token_len(push_all(start.cur, tokens.subrange(i, q)), t);
}

/// A part that is closed lies inside the tokens.
proof fn lemma_close_behind_part(tokens: Seq<TokenView>, i: int, j: int)
    requires
        closes_at(tokens, i, j),
    ensures
        0 <= i < j < tokens.len(),
        tokens[i].is_open(),
        tokens[j].is_close(),
        has_close(tokens, i),
        close_of(tokens, i) == j,
{
    lemma_close_of(tokens, i, j);
    lemma_close_behind(tokens, i);
}

/// Inside a part that fits, the part that an open tag opens fits too, with
/// room to spare for what it holds; and behind the tag the stack holds it.
proof fn lemma_fit_open_room(
    tokens: Seq<TokenView>,
    max: int,
    start: SubState,
    i: int,
    j: int,
    q: int,
    stack: Seq<int>,
)
    requires
        none_empty(tokens),
        in_source_order(tokens),
        no_empty_tag(tokens),
        fit_inv(tokens, max, start, i, j, q, stack),
        q <= j,
        tokens[q].is_open(),
    ensures
        has_close(tokens, q),
        tokens[close_of(tokens, q)].end() - tokens[q].index <= room(
            tokens,
            max,
            fit_state(tokens, start, i, q, stack),
        ),
        tokens[q].len() + tokens[close_of(tokens, q)].len() < room(
            tokens,
            max,
            fit_state(tokens, start, i, q, stack),
        ),
        fit_inv(tokens, max, start, i, j, q + 1, stack.push(q)),
{
    let base = start.stack.len() as int;
    lemma_fit_push(tokens, max, start, i, j, q, stack);
    lemma_fit_room(tokens, max, start, i, j, q, stack);
    lemma_close_behind_part(tokens, i, j);
    if q > i {
        lemma_part_depth(tokens, i, j, q);
        lemma_inner_close(tokens, i, j, q, q + 1);
    }
    let r = close_of(tokens, q);
    lemma_close_behind(tokens, q);
    assert(r != q + 1) by {}
    lemma_start_of(tokens, q + 1, r);
    lemma_start_of(tokens, q, q + 1);
    lemma_stack_push(tokens, stack, q);
    let next = stack.push(q);
    lemma_stack_order(tokens, next, q + 1);
    if stack.len() > base {
        let places = close_places(tokens, next);
        assert(places[0] == r);
        assert(places[1] == close_of(tokens, stack.last()));
        lemma_start_of(tokens, r, close_of(tokens, stack.last()));
    }
    assert(next.take(base) =~= stack.take(base));
    if q < j {
        lemma_part_depth(tokens, i, j, q + 1);
    }
    assert(next[base] == i) by {}
}

/// Inside a part that fits, an open tag enters the group.
proof fn lemma_fit_open(
    tokens: Seq<TokenView>,
    max: int,
    names: Seq<Seq<u8>>,
    start: SubState,
    i: int,
    j: int,
    q: int,
    stack: Seq<int>,
)
    requires
        none_empty(tokens),
        in_source_order(tokens),
        no_empty_tag(tokens),
        fit_inv(tokens, max, start, i, j, q, stack),
        q <= j,
        tokens[q].is_open(),
    ensures
        fit_step(tokens, max, names, start, i, j, q, stack, stack.push(q)),
{
    lemma_fit_open_room(tokens, max, start, i, j, q, stack);
    lemma_fit_push(tokens, max, start, i, j, q, stack);
    reveal(step_open);
}

/// Inside a part that fits, a close tag enters the group.
proof fn lemma_fit_close(
    tokens: Seq<TokenView>,
    max: int,
    names: Seq<Seq<u8>>,
    start: SubState,
    i: int,
    j: int,
    q: int,
    stack: Seq<int>,
)
    requires
        none_empty(tokens),
        in_source_order(tokens),
        never_underflows(tokens),
        fit_inv(tokens, max, start, i, j, q, stack),
        q <= j,
        tokens[q].is_close(),
    ensures
        fit_step(tokens, max, names, start, i, j, q, stack, stack.drop_last()),
{
    let base = start.stack.len() as int;
    lemma_fit_push(tokens, max, start, i, j, q, stack);
    lemma_close_behind_part(tokens, i, j);
    lemma_stack_not_empty(tokens, stack, q);
    lemma_stack_pop(tokens, stack, q);
    let next = stack.drop_last();
    lemma_part_depth(tokens, i, j, q);
    lemma_stack_depth(tokens, stack, q);
    lemma_stack_depth(tokens, next, q + 1);
    if q < j {
        lemma_part_depth(tokens, i, j, q + 1);
    }
    assert(next.take(base) =~= stack.take(base));
}

/// Inside a part that fits, text enters the group whole.
proof fn lemma_fit_text(
    tokens: Seq<TokenView>,
    max: int,
    names: Seq<Seq<u8>>,
    start: SubState,
    i: int,
    j: int,
    q: int,
    stack: Seq<int>,
)
    requires
        none_empty(tokens),
        in_source_order(tokens),
        fit_inv(tokens, max, start, i, j, q, stack),
        q <= j,
        tokens[q].is_text(),
    ensures
        fit_step(tokens, max, names, start, i, j, q, stack, stack),
{
    lemma_fit_push(tokens, max, start, i, j, q, stack);
    lemma_fit_room(tokens, max, start, i, j, q, stack);
    lemma_close_behind_part(tokens, i, j);
    lemma_stack_text(tokens, stack, q);
    lemma_stack_order(tokens, stack, q);
    lemma_part_depth(tokens, i, j, q);
    if q < j {
        lemma_part_depth(tokens, i, j, q + 1);
    }
    let top = stack[stack.len() - 1];
    lemma_start_of(tokens, q, close_of(tokens, top));
    reveal(step_text);
}

/// Inside a part that fits, each step takes the token into the group.
proof fn lemma_fit_step(
    tokens: Seq<TokenView>,
    max: int,
    names: Seq<Seq<u8>>,
    start: SubState,
    i: int,
    j: int,
    q: int,
    stack: Seq<int>,
) -> (next: Seq<int>)
    requires
        none_empty(tokens),
        in_source_order(tokens),
        no_empty_tag(tokens),
        never_underflows(tokens),
        fit_inv(tokens, max, start, i, j, q, stack),
        q <= j,
    ensures
        fit_step(tokens, max, names, start, i, j, q, stack, next),
{
    if tokens[q].is_open() {
        lemma_fit_open(tokens, max, names, start, i, j, q, stack);
        stack.push(q)
    } else if tokens[q].is_close() {
        lemma_fit_close(tokens, max, names, start, i, j, q, stack);
        stack.drop_last()
    } else {
        lemma_fit_text(tokens, max, names, start, i, j, q, stack);
        stack
    }
}

/// The walk through a part that fits takes its tokens into the group one
/// after the other, and ends with the stack it started with.
proof fn lemma_fit_walk(
    tokens: Seq<TokenView>,
    max: int,
    names: Seq<Seq<u8>>,
    start: SubState,
    i: int,
    j: int,
    q: int,
    stack: Seq<int>,
)
    requires
        none_empty(tokens),
        in_source_order(tokens),
        no_empty_tag(tokens),
        never_underflows(tokens),
        fit_inv(tokens, max, start, i, j, q, stack),
    ensures
        walk_to(tokens, max, names, fit_state(tokens, start, i, q, stack), q, j + 1) == Some(
            fit_state(tokens, start, i, j + 1, start.stack),
        ),
    decreases j + 1 - q,
{
    if q <= j {
        lemma_close_behind_part(tokens, i, j);
        let next = lemma_fit_step(tokens, max, names, start, i, j, q, stack);
        lemma_fit_walk(tokens, max, names, start, i, j, q + 1, next);
    } else {
        assert(stack =~= stack.take(start.stack.len() as int));
    }
}

/// No split when it fits: where the part from an open tag to its close tag
/// fits behind what the group holds, the walk takes the tokens of the part
/// into that group one after the other: nothing is cut, closed or moved on the
/// way, and behind the part the walk stands with the stack and the groups it
/// had before it.
pub proof fn lemma_part_that_fits_is_not_cut(
    tokens: Seq<TokenView>,
    max: int,
    names: Seq<Seq<u8>>,
    st: SubState,
    i: int,
)
    requires
        none_empty(tokens),
        in_source_order(tokens),
        no_empty_tag(tokens),
        never_underflows(tokens),
        stack_inv(tokens, st.stack, i),
        0 <= i < tokens.len(),
        tokens[i].is_open(),
        has_close(tokens, i),
        tokens[close_of(tokens, i)].end() - tokens[i].index <= room(tokens, max, st),
    ensures
        walk_to(tokens, max, names, st, i, close_of(tokens, i) + 1) == Some(
            SubState {
                stack: st.stack,
                cur: push_all(st.cur, tokens.subrange(i, close_of(tokens, i) + 1)),
                out: st.out,
            },
        ),
{
    let j = close_of(tokens, i);
    lemma_close_behind(tokens, i);
    lemma_start_of(tokens, i, i + 1);
    assert(st.stack.take(st.stack.len() as int) =~= st.stack);
    lemma_fit_walk(tokens, max, names, st, i, j, i, st.stack);
}

/// No split when it does not fit: where the name of an open tag is on the
/// list and the part up to its close tag does not fit behind what the group
/// holds, the walk closes that group and makes a group of the tags that are
/// open, the whole part, and the close tags of those tags. It then stands
/// behind the part, with that group as the one that is being filled or as the
/// last of those that are done.
pub proof fn lemma_part_that_is_moved_is_whole(
    tokens: Seq<TokenView>,
    max: int,
    names: Seq<Seq<u8>>,
    st: SubState,
    i: int,
)
    requires
        0 <= i < tokens.len(),
        tokens[i].is_open(),
        has_close(tokens, i),
        must_eject(tokens, max, names, st, i),
    ensures
        step(tokens, max, names, st, i) == Ok::<Walk, crate::error::SplitErrorView>(
            eject(tokens, max, st, i),
        ),
        eject(tokens, max, st, i).next == close_of(tokens, i) + 1,
        eject(tokens, max, st, i).state.stack == st.stack,
        eject(tokens, max, st, i).state.cur == wrapped(tokens, i, close_of(tokens, i), st.stack)
            || eject(tokens, max, st, i).state.out.last() == wrapped(
            tokens,
            i,
            close_of(tokens, i),
            st.stack,
        ),
{
    reveal(step_open);
    reveal(eject);
}

} // verus!
