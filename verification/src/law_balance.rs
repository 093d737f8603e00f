//! Every group and every chunk is in balance.
//!
//! This holds on all walks but those on which a part that is not to be split
//! is moved into a group of its own while tags are open, and that group
//! leaves room: the walk then goes on in that group, behind the close tags of
//! the tags that are open, and what follows is closed a second time.

use crate::assembler::{add_group, assemble, flushed, spec_chunks, Assembly};
use crate::error::SplitErrorView;
use crate::grouping::{group_start, spec_groups, spec_prepare};
use crate::matching::{balanced, close_of, depth, has_close, lemma_close_behind, never_underflows};
use crate::model::{
    closed, cut_once, cut_text, eject, emit, enter, finish, future_close_len, lemma_cut_text_stack,
    lemma_step_advances, lemma_step_errors, must_cut, must_eject, reopened, spec_subdivide,
    stack_closes, stack_opens, step, step_close, step_open, step_text, walk_from, wrapped, SubState,
};
use crate::residue::{
    all_closes, all_opens, lemma_after_all_closes, lemma_after_all_frame, lemma_balanced_add,
    lemma_balanced_residue, lemma_closed_part, lemma_depth_shift, lemma_residue_opens,
    lemma_residue_push_all, lemma_residue_push_token, residue,
};
use crate::stack::{
    lemma_stack_end, lemma_stack_not_empty, lemma_stack_order, lemma_stack_pop, lemma_stack_push,
    lemma_stack_skip, lemma_stack_start, lemma_stack_text, stack_inv,
};
use crate::token::{TokenKind, TokenView};
use crate::token_group::{push_all, push_token, total_len};
use crate::tokenizer::spec_tokens;
use vstd::prelude::*;

verus! {

/// Whether every group is in balance.
pub open spec fn all_balanced(groups: Seq<Seq<TokenView>>) -> bool {
    forall|k: int| 0 <= k < groups.len() ==> balanced(#[trigger] groups[k])
}

/// Whether the walk, at the open tag at `i`, moves the part up to its close
/// tag into a group of its own while tags are open, and goes on in that group.
pub open spec fn keeps_wrap_open(
    tokens: Seq<TokenView>,
    max: int,
    names: Seq<Seq<u8>>,
    st: SubState,
    i: int,
) -> bool {
    &&& tokens[i].is_open()
    &&& has_close(tokens, i)
    &&& must_eject(tokens, max, names, st, i)
    &&& st.stack.len() > 0
    &&& total_len(wrapped(tokens, i, close_of(tokens, i), st.stack)) + future_close_len(
        tokens,
        st.stack,
    ) < max
}

/// Whether the walk from the token at `i` never goes on in such a group.
pub open spec fn walk_is_clean(
    tokens: Seq<TokenView>,
    max: int,
    names: Seq<Seq<u8>>,
    st: SubState,
    i: int,
) -> bool
    decreases tokens.len() - i,
{
    if i < 0 || i >= tokens.len() {
        true
    } else if keeps_wrap_open(tokens, max, names, st, i) {
        false
    } else {
        match step(tokens, max, names, st, i) {
            Err(_) => true,
            Ok(walk) => {
                proof {
                    lemma_step_advances(tokens, max, names, st, i);
                }
                walk_is_clean(tokens, max, names, walk.state, walk.next)
            },
        }
    }
}

/// Whether the subdivision of a group never goes on in such a group.
pub open spec fn subdivide_is_clean(tokens: Seq<TokenView>, max: int, names: Seq<Seq<u8>>)
    -> bool {
    walk_is_clean(
        tokens,
        max,
        names,
        SubState { stack: Seq::empty(), cur: Seq::empty(), out: Seq::empty() },
        0,
    )
}

/// What holds of a walk before the token at `i`: the group that is being
/// filled leaves the tags of the stack open, and the groups that are done are
/// in balance.
pub open spec fn balance_inv(tokens: Seq<TokenView>, st: SubState, i: int) -> bool {
    &&& stack_inv(tokens, st.stack, i)
    &&& residue(st.cur) == Some(stack_opens(tokens, st.stack))
    &&& all_balanced(st.out)
}

/// One more group in balance.
proof fn lemma_all_balanced_push(groups: Seq<Seq<TokenView>>, group: Seq<TokenView>)
    requires
        all_balanced(groups),
        balanced(group),
    ensures
        all_balanced(groups.push(group)),
{
    assert forall|k: int| 0 <= k < groups.push(group).len() implies balanced(
        #[trigger] groups.push(group)[k],
    ) by {}
}

/// Groups in balance behind groups in balance.
proof fn lemma_all_balanced_add(a: Seq<Seq<TokenView>>, b: Seq<Seq<TokenView>>)
    requires
        all_balanced(a),
        all_balanced(b),
    ensures
        all_balanced(a + b),
{
    assert forall|k: int| 0 <= k < (a + b).len() implies balanced(#[trigger] (a + b)[k]) by {}
}

/// The tags of a stack are open tags, and the tags it is waiting for are
/// close tags.
proof fn lemma_stack_tokens(tokens: Seq<TokenView>, stack: Seq<int>, i: int)
    requires
        stack_inv(tokens, stack, i),
    ensures
        all_opens(stack_opens(tokens, stack)),
        all_closes(stack_closes(tokens, stack).reverse()),
        stack_opens(tokens, stack).len() == stack.len(),
        stack_closes(tokens, stack).reverse().len() == stack.len(),
{
    reveal(stack_inv);
    assert forall|k: int| 0 <= k < stack.len() implies (#[trigger] stack_opens(
        tokens,
        stack,
    )[k]).is_open() by {}
    let closes = stack_closes(tokens, stack).reverse();
    assert forall|k: int| 0 <= k < closes.len() implies (#[trigger] closes[k]).is_close() by {
        let p = stack[stack.len() - 1 - k];
        lemma_close_behind(tokens, p);
    }
}

/// A group that is closed with the stack is in balance, and one that is
/// opened with it leaves the tags of the stack open.
proof fn lemma_closed_reopened(tokens: Seq<TokenView>, cur: Seq<TokenView>, stack: Seq<int>, i: int)
    requires
        stack_inv(tokens, stack, i),
        residue(cur) == Some(stack_opens(tokens, stack)),
    ensures
        balanced(closed(tokens, cur, stack)),
        residue(reopened(tokens, stack)) == Some(stack_opens(tokens, stack)),
{
    lemma_stack_tokens(tokens, stack, i);
    let opens = stack_opens(tokens, stack);
    let closes = stack_closes(tokens, stack).reverse();
    lemma_residue_push_all(cur, closes);
    lemma_after_all_closes(opens, closes);
    assert(opens.take(0) =~= Seq::<TokenView>::empty());
    lemma_balanced_residue(closed(tokens, cur, stack));
    lemma_residue_push_all(Seq::empty(), opens);
    lemma_residue_opens(opens);
}

/// A group that is closed and done is in balance.
proof fn lemma_balance_emit(tokens: Seq<TokenView>, st: SubState, i: int)
    requires
        balance_inv(tokens, st, i),
    ensures
        balance_inv(tokens, emit(tokens, st), i),
{
    lemma_closed_reopened(tokens, st.cur, st.stack, i);
    lemma_all_balanced_push(st.out, closed(tokens, st.cur, st.stack));
}

/// Behind an open tag the group leaves that tag open too.
proof fn lemma_balance_enter(tokens: Seq<TokenView>, st: SubState, i: int)
    requires
        balance_inv(tokens, st, i),
        0 <= i < tokens.len(),
        tokens[i].is_open(),
        has_close(tokens, i),
    ensures
        balance_inv(tokens, enter(tokens, st, i).state, i + 1),
{
    lemma_stack_push(tokens, st.stack, i);
    lemma_residue_push_token(st.cur, tokens[i]);
    assert(stack_opens(tokens, st.stack).push(tokens[i]) =~= stack_opens(
        tokens,
        st.stack.push(i),
    ));
}

/// Behind a close tag the group leaves one tag less open.
proof fn lemma_balance_close(tokens: Seq<TokenView>, st: SubState, i: int)
    requires
        balance_inv(tokens, st, i),
        never_underflows(tokens),
        0 <= i < tokens.len(),
        tokens[i].is_close(),
    ensures
        balance_inv(tokens, step_close(tokens, st, i).state, i + 1),
{
    lemma_stack_not_empty(tokens, st.stack, i);
    lemma_stack_pop(tokens, st.stack, i);
    lemma_residue_push_token(st.cur, tokens[i]);
    assert(stack_opens(tokens, st.stack).drop_last() =~= stack_opens(
        tokens,
        st.stack.drop_last(),
    ));
}

/// A part that is moved makes a group in balance, and the walk can go on in
/// it where no tag is open.
proof fn lemma_balance_eject(tokens: Seq<TokenView>, max: int, st: SubState, i: int)
    requires
        balance_inv(tokens, st, i),
        0 <= i < tokens.len(),
        tokens[i].is_open(),
        has_close(tokens, i),
        st.stack.len() == 0 || total_len(wrapped(tokens, i, close_of(tokens, i), st.stack))
            + future_close_len(tokens, st.stack) >= max,
    ensures
        balance_inv(tokens, eject(tokens, max, st, i).state, eject(tokens, max, st, i).next),
{
    reveal(eject);
    let j = close_of(tokens, i);
    lemma_close_behind(tokens, i);
    lemma_stack_skip(tokens, st.stack, i);
    lemma_closed_reopened(tokens, st.cur, st.stack, i);
    lemma_stack_tokens(tokens, st.stack, i);
    let opens = stack_opens(tokens, st.stack);
    let closes = stack_closes(tokens, st.stack).reverse();
    let inner = tokens.subrange(i, j + 1);
    let w = wrapped(tokens, i, j, st.stack);
    lemma_closed_part(tokens, i, j);
    lemma_residue_push_all(reopened(tokens, st.stack), inner);
    lemma_after_all_frame(opens, inner);
    lemma_residue_push_all(push_all(reopened(tokens, st.stack), inner), closes);
    lemma_after_all_closes(opens, closes);
    assert(opens.take(0) =~= Seq::<TokenView>::empty());
    lemma_balanced_residue(w);
    let done = st.out.push(closed(tokens, st.cur, st.stack));
    lemma_all_balanced_push(st.out, closed(tokens, st.cur, st.stack));
    lemma_all_balanced_push(done, w);
}

/// The step over an open tag keeps what holds of the walk.
proof fn lemma_balance_step_open(
    tokens: Seq<TokenView>,
    max: int,
    names: Seq<Seq<u8>>,
    st: SubState,
    i: int,
)
    requires
        balance_inv(tokens, st, i),
        0 <= i < tokens.len(),
        tokens[i].is_open(),
        !keeps_wrap_open(tokens, max, names, st, i),
    ensures
        match step_open(tokens, max, names, st, i) {
            Ok(walk) => balance_inv(tokens, walk.state, walk.next),
            Err(_) => true,
        },
{
    reveal(step_open);
    if has_close(tokens, i) {
        if must_eject(tokens, max, names, st, i) {
            lemma_balance_eject(tokens, max, st, i);
        } else if must_cut(tokens, max, st, i) {
            lemma_balance_emit(tokens, st, i);
            lemma_balance_enter(tokens, emit(tokens, st), i);
        } else {
            lemma_balance_enter(tokens, st, i);
        }
    }
}

/// A piece of text leaves the tags of the stack open.
proof fn lemma_balance_cut_once(
    tokens: Seq<TokenView>,
    max: int,
    st: SubState,
    token: TokenView,
    rest: Seq<u8>,
    start: nat,
    i: int,
)
    requires
        balance_inv(tokens, st, i),
    ensures
        match cut_once(tokens, max, st, token, rest, start) {
            Ok(cut) => balance_inv(tokens, cut.state, i),
            Err(_) => true,
        },
{
    reveal(cut_once);
    lemma_balance_emit(tokens, st, i);
    match cut_once(tokens, max, st, token, rest, start) {
        Ok(cut) => {
            let st1 = if crate::model::room(tokens, max, st) == 0 {
                emit(tokens, st)
            } else {
                st
            };
            let piece = crate::ext::spec_split_whitespace(
                rest,
                crate::model::room(tokens, max, st1),
            )->0;
            let segment = TokenView { kind: TokenKind::Text, text: piece, index: start };
            lemma_residue_push_token(st1.cur, segment);
            let st2 = SubState {
                stack: st1.stack,
                cur: push_token(st1.cur, segment),
                out: st1.out,
            };
            lemma_balance_emit(tokens, st2, i);
        },
        Err(_) => {},
    }
}

/// So do all pieces of a text.
proof fn lemma_balance_cut_text(
    tokens: Seq<TokenView>,
    max: int,
    st: SubState,
    token: TokenView,
    rest: Seq<u8>,
    start: nat,
    i: int,
)
    requires
        balance_inv(tokens, st, i),
    ensures
        match cut_text(tokens, max, st, token, rest, start) {
            Ok(last) => balance_inv(tokens, last, i),
            Err(_) => true,
        },
    decreases rest.len(),
{
    lemma_balance_cut_once(tokens, max, st, token, rest, start, i);
    match cut_once(tokens, max, st, token, rest, start) {
        Ok(cut) => {
            if 0 < cut.taken < rest.len() {
                lemma_balance_cut_text(
                    tokens,
                    max,
                    cut.state,
                    token,
                    rest.skip(cut.taken as int),
                    start + cut.taken,
                    i,
                );
            }
        },
        Err(_) => {},
    }
}

/// The step over text keeps what holds of the walk.
proof fn lemma_balance_step_text(tokens: Seq<TokenView>, max: int, st: SubState, i: int)
    requires
        balance_inv(tokens, st, i),
        0 <= i < tokens.len(),
        tokens[i].is_text(),
    ensures
        match step_text(tokens, max, st, i) {
            Ok(walk) => balance_inv(tokens, walk.state, walk.next),
            Err(_) => true,
        },
{
    reveal(step_text);
    lemma_stack_text(tokens, st.stack, i);
    lemma_residue_push_token(st.cur, tokens[i]);
    lemma_balance_cut_text(tokens, max, st, tokens[i], tokens[i].text, tokens[i].index, i);
    match step_text(tokens, max, st, i) {
        Ok(walk) => {
            // the stack is the one before the text
            lemma_cut_text_stack(tokens, max, st, tokens[i], tokens[i].text, tokens[i].index);
        },
        Err(_) => {},
    }
}

/// A walk that never goes on behind close tags that are still to come leaves
/// groups in balance.
proof fn lemma_balance_walk(
    tokens: Seq<TokenView>,
    max: int,
    names: Seq<Seq<u8>>,
    st: SubState,
    i: int,
)
    requires
        balance_inv(tokens, st, i),
        never_underflows(tokens),
        walk_is_clean(tokens, max, names, st, i),
    ensures
        match walk_from(tokens, max, names, st, i) {
            Ok(groups) => all_balanced(groups),
            Err(SplitErrorView::SubdividedExceedingTheLimit(groups)) => all_balanced(groups),
            Err(_) => true,
        },
    decreases tokens.len() - i,
{
    lemma_stack_order(tokens, st.stack, i);
    if i >= tokens.len() {
        reveal(finish);
        lemma_stack_end(tokens, st.stack);
        assert(stack_opens(tokens, st.stack) =~= Seq::<TokenView>::empty());
        lemma_balanced_residue(st.cur);
        lemma_all_balanced_push(st.out, st.cur);
    } else {
        if tokens[i].is_open() {
            lemma_balance_step_open(tokens, max, names, st, i);
        } else if tokens[i].is_close() {
            lemma_balance_close(tokens, st, i);
        } else {
            lemma_balance_step_text(tokens, max, st, i);
        }
        match step(tokens, max, names, st, i) {
            Ok(walk) => {
                lemma_step_advances(tokens, max, names, st, i);
                lemma_balance_walk(tokens, max, names, walk.state, walk.next);
            },
            Err(_) => {
                lemma_step_errors(tokens, max, names, st, i);
            },
        }
    }
}

/// Balance: the groups that a subdivision returns are in balance, each one
/// closes the tags that it opens, whether they come as a result or with the
/// error for a group over the budget. The walks that go on behind close tags
/// that are still to come are left out.
pub proof fn lemma_subdivide_balanced(tokens: Seq<TokenView>, max: int, names: Seq<Seq<u8>>)
    requires
        subdivide_is_clean(tokens, max, names),
    ensures
        match spec_subdivide(tokens, max, names) {
            Ok(groups) => all_balanced(groups),
            Err(SplitErrorView::SubdividedExceedingTheLimit(groups)) => all_balanced(groups),
            Err(_) => true,
        },
{
    if max > 0 && never_underflows(tokens) {
        let start = SubState { stack: Seq::empty(), cur: Seq::empty(), out: Seq::empty() };
        lemma_stack_start(tokens);
        assert(stack_opens(tokens, start.stack) =~= Seq::<TokenView>::empty());
        lemma_balance_walk(tokens, max, names, start, 0);
    }
}

/// Where a group starts no tag is open.
proof fn lemma_group_start(tokens: Seq<TokenView>, n: int)
    requires
        0 <= n,
    ensures
        0 <= group_start(tokens, n) <= n,
        depth(tokens, group_start(tokens, n)) == 0,
        forall|q: int| group_start(tokens, n) < q <= n ==> #[trigger] depth(tokens, q) != 0,
    decreases n,
{
    if n > 0 && depth(tokens, n) != 0 {
        lemma_group_start(tokens, n - 1);
    }
}

/// The top-level groups are in balance.
proof fn lemma_groups_balanced(tokens: Seq<TokenView>, n: int)
    requires
        never_underflows(tokens),
        0 <= n <= tokens.len(),
    ensures
        all_balanced(spec_groups(tokens, n)),
    decreases n,
{
    if n > 0 {
        lemma_groups_balanced(tokens, n - 1);
        if depth(tokens, n) == 0 {
            let start = group_start(tokens, n - 1);
            lemma_group_start(tokens, n - 1);
            let part = tokens.subrange(start, n);
            let group = push_all(Seq::empty(), part);
            assert(balanced(part)) by {
                reveal(never_underflows);
                assert forall|q: int| 0 <= q <= part.len() implies #[trigger] depth(part, q)
                    >= 0 by {
                    lemma_depth_shift(tokens, start, n, q);
                }
                lemma_depth_shift(tokens, start, n, part.len() as int);
            }
            lemma_balanced_residue(part);
            lemma_residue_push_all(Seq::empty(), part);
            lemma_balanced_residue(group);
            lemma_all_balanced_push(spec_groups(tokens, n - 1), group);
        }
    }
}

/// Whether the chunks of an assembly are in balance.
pub open spec fn assembly_balanced(a: Assembly) -> bool {
    balanced(a.chunk) && all_balanced(a.chunks)
}

/// Whether no group that is subdivided goes on behind close tags that are
/// still to come.
pub open spec fn groups_are_clean(groups: Seq<Seq<TokenView>>, max: int, names: Seq<Seq<u8>>)
    -> bool {
    forall|k: int|
        0 <= k < groups.len() && total_len(#[trigger] groups[k]) > max ==> subdivide_is_clean(
            groups[k],
            max,
            names,
        )
}

/// Whether no subdivision in the split of a source does so.
pub open spec fn split_is_clean(text: Seq<u8>, max: int, names: Seq<Seq<u8>>) -> bool {
    match spec_prepare(spec_tokens(text, 0)) {
        Ok(groups) => groups_are_clean(groups, max, names),
        Err(_) => true,
    }
}

/// No tokens are in balance.
proof fn lemma_empty_balanced()
    ensures
        balanced(Seq::<TokenView>::empty()),
{
    lemma_balanced_residue(Seq::<TokenView>::empty());
}

/// The chunks of an assembly in balance are in balance.
proof fn lemma_flushed_balanced(a: Assembly)
    requires
        assembly_balanced(a),
    ensures
        all_balanced(flushed(a)),
{
    lemma_all_balanced_push(a.chunks, a.chunk);
}

/// One more group keeps an assembly in balance.
proof fn lemma_add_group_balanced(
    group: Seq<TokenView>,
    max: int,
    names: Seq<Seq<u8>>,
    a: Assembly,
)
    requires
        assembly_balanced(a),
        balanced(group),
        total_len(group) > max ==> subdivide_is_clean(group, max, names),
    ensures
        match add_group(group, max, names, a) {
            Ok(next) => assembly_balanced(next),
            Err(_) => true,
        },
{
    reveal(add_group);
    lemma_empty_balanced();
    lemma_flushed_balanced(a);
    if total_len(a.chunk) + total_len(group) <= max {
        lemma_balanced_add(a.chunk, group);
    } else if total_len(group) <= max {
        lemma_all_balanced_push(flushed(a), group);
    } else {
        lemma_subdivide_balanced(group, max, names);
        match spec_subdivide(group, max, names) {
            Ok(parts) => lemma_all_balanced_add(flushed(a), parts),
            Err(SplitErrorView::SubdividedExceedingTheLimit(parts)) => lemma_all_balanced_add(
                flushed(a),
                parts,
            ),
            Err(_) => {},
        }
    }
}

/// So do all groups.
proof fn lemma_assemble_balanced(
    groups: Seq<Seq<TokenView>>,
    max: int,
    names: Seq<Seq<u8>>,
    k: int,
    a: Assembly,
)
    requires
        assembly_balanced(a),
        all_balanced(groups),
        groups_are_clean(groups, max, names),
    ensures
        match assemble(groups, max, names, k, a) {
            Ok(last) => assembly_balanced(last),
            Err(_) => true,
        },
    decreases groups.len() - k,
{
    if 0 <= k < groups.len() {
        lemma_add_group_balanced(groups[k], max, names, a);
        match add_group(groups[k], max, names, a) {
            Ok(next) => lemma_assemble_balanced(groups, max, names, k + 1, next),
            Err(_) => {},
        }
    }
}

/// Balance: the chunks of a split are in balance, each one closes the tags
/// that it opens, whether they come as a result or with the error for a chunk
/// over the budget. The sources are left out in which a subdivision goes on
/// behind close tags that are still to come.
pub proof fn lemma_split_balanced(text: Seq<u8>, max: int, names: Seq<Seq<u8>>)
    requires
        split_is_clean(text, max, names),
    ensures
        match spec_chunks(text, max, names) {
            Ok(a) => all_balanced(flushed(a)),
            Err(_) => true,
        },
{
    let tokens = spec_tokens(text, 0);
    match spec_prepare(tokens) {
        Ok(groups) => {
            lemma_groups_balanced(tokens, tokens.len() as int);
            lemma_empty_balanced();
            let start = Assembly { chunk: Seq::empty(), chunks: Seq::empty(), exceeded: false };
            lemma_assemble_balanced(groups, max, names, 0, start);
            match assemble(groups, max, names, 0, start) {
                Ok(a) => lemma_flushed_balanced(a),
                Err(_) => {},
            }
        },
        Err(_) => {},
    }
}

} // verus!
