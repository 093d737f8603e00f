//! The text of a source is the text of its chunks.
//!
//! Tags are closed and opened again where a group ends, and open tags that
//! hold nothing go, but no byte of text is lost, added or moved, and every
//! piece of text is valid UTF-8.

use crate::bytes::lemma_cut_valid;
use crate::error::SplitErrorView;
use crate::ext::{lemma_split_whitespace, spec_split_whitespace};
use crate::matching::{close_of, has_close, lemma_close_behind, never_underflows};
use crate::model::{
    closed, cut_once, cut_text, eject, emit, enter, finish, lemma_cut_text_stack,
    lemma_step_advances, lemma_step_errors, must_cut, must_eject, reopened, room, spec_subdivide,
    stack_closes, stack_opens, step, step_close, step_open, step_text, walk_from, wrapped, SubState,
};
use crate::stack::{
    lemma_stack_not_empty, lemma_stack_order, lemma_stack_pop, lemma_stack_push, lemma_stack_skip,
    lemma_stack_start, lemma_stack_text, stack_inv,
};
use crate::text::{
    all_shaped, all_valid, groups_shaped, groups_valid, lemma_no_text, lemma_part_holds,
    lemma_text_add, lemma_text_push_all, lemma_text_push_token, lemma_text_skip, lemma_texts_push,
    no_lt, no_text, shaped, text_of, texts_of,
};
use crate::token::{TokenKind, TokenView};
use crate::token_group::{all_open, push_all, push_token};
use vstd::prelude::*;
use vstd::utf8::*;

verus! {

/// The text that a walk has taken so far.
pub open spec fn carried(st: SubState) -> Seq<u8> {
    texts_of(st.out) + text_of(st.cur)
}

/// What holds of a walk before the token at `i`: its stack belongs there, and
/// what it has taken so far is valid UTF-8, and reads as what it is if the
/// tokens do.
pub open spec fn text_inv(tokens: Seq<TokenView>, st: SubState, i: int) -> bool {
    &&& stack_inv(tokens, st.stack, i)
    &&& all_valid(tokens)
    &&& all_valid(st.cur)
    &&& groups_valid(st.out)
    &&& all_shaped(tokens) ==> all_shaped(st.cur) && groups_shaped(st.out)
}

/// The tags of a stack hold no text, and neither do the tags it is waiting
/// for.
proof fn lemma_stack_no_text(tokens: Seq<TokenView>, stack: Seq<int>, i: int)
    requires
        stack_inv(tokens, stack, i),
    ensures
        no_text(stack_opens(tokens, stack)),
        no_text(stack_closes(tokens, stack).reverse()),
        all_valid(tokens) ==> all_valid(stack_opens(tokens, stack)) && all_valid(
            stack_closes(tokens, stack).reverse(),
        ),
        all_shaped(tokens) ==> all_shaped(stack_opens(tokens, stack)) && all_shaped(
            stack_closes(tokens, stack).reverse(),
        ),
{
    reveal(stack_inv);
    let opens = stack_opens(tokens, stack);
    let closes = stack_closes(tokens, stack).reverse();
    if all_shaped(tokens) {
        assert forall|k: int| 0 <= k < opens.len() implies shaped(#[trigger] opens[k]) by {}
        assert forall|k: int| 0 <= k < closes.len() implies shaped(#[trigger] closes[k]) by {
            let p = stack[stack.len() - 1 - k];
            lemma_close_behind(tokens, p);
        }
    }
    assert forall|k: int| 0 <= k < opens.len() implies !(#[trigger] opens[k]).is_text() by {}
    assert forall|k: int| 0 <= k < closes.len() implies !(#[trigger] closes[k]).is_text() by {
        let p = stack[stack.len() - 1 - k];
        lemma_close_behind(tokens, p);
    }
    if all_valid(tokens) {
        assert forall|k: int| 0 <= k < opens.len() implies valid_utf8(
            (#[trigger] opens[k]).text,
        ) by {}
        assert forall|k: int| 0 <= k < closes.len() implies valid_utf8(
            (#[trigger] closes[k]).text,
        ) by {
            let p = stack[stack.len() - 1 - k];
            lemma_close_behind(tokens, p);
        }
    }
}

/// A group that is closed holds the text it held, and one that is opened
/// again holds none.
proof fn lemma_text_emit(tokens: Seq<TokenView>, st: SubState, i: int)
    requires
        text_inv(tokens, st, i),
    ensures
        text_inv(tokens, emit(tokens, st), i),
        carried(emit(tokens, st)) == carried(st),
{
    lemma_stack_no_text(tokens, st.stack, i);
    let opens = stack_opens(tokens, st.stack);
    let closes = stack_closes(tokens, st.stack).reverse();
    lemma_text_push_all(st.cur, closes);
    lemma_no_text(closes);
    lemma_text_push_all(Seq::empty(), opens);
    lemma_no_text(opens);
    lemma_texts_push(st.out, closed(tokens, st.cur, st.stack));
}

/// A piece that is cut off a text is a piece of that text.
proof fn lemma_text_cut_once(
    tokens: Seq<TokenView>,
    max: int,
    st: SubState,
    token: TokenView,
    rest: Seq<u8>,
    start: nat,
    i: int,
)
    requires
        text_inv(tokens, st, i),
        valid_utf8(rest),
        rest.len() > 0,
        all_shaped(tokens) ==> no_lt(rest),
    ensures
        match cut_once(tokens, max, st, token, rest, start) {
            Ok(cut) => {
                &&& text_inv(tokens, cut.state, i)
                &&& 0 < cut.taken <= rest.len()
                &&& carried(cut.state) == carried(st) + rest.take(cut.taken as int)
                &&& valid_utf8(rest.skip(cut.taken as int))
                &&& all_shaped(tokens) ==> no_lt(rest.skip(cut.taken as int))
            },
            Err(_) => true,
        },
{
    reveal(cut_once);
    lemma_text_emit(tokens, st, i);
    match cut_once(tokens, max, st, token, rest, start) {
        Ok(cut) => {
            let st1 = if room(tokens, max, st) == 0 {
                emit(tokens, st)
            } else {
                st
            };
            let avail = room(tokens, max, st1);
            lemma_split_whitespace(rest, avail);
            let piece = spec_split_whitespace(rest, avail)->0;
            lemma_cut_valid(rest, piece.len() as int);
            let segment = TokenView { kind: TokenKind::Text, text: piece, index: start };
            if all_shaped(tokens) {
                assert forall|q: int| 0 <= q < piece.len() implies #[trigger] piece[q]
                    != crate::tokenizer::LT by {}
                let behind = rest.skip(cut.taken as int);
                assert forall|q: int| 0 <= q < behind.len() implies #[trigger] behind[q]
                    != crate::tokenizer::LT by {}
            }
            lemma_text_push_token(st1.cur, segment);
            let st2 = SubState {
                stack: st1.stack,
                cur: push_token(st1.cur, segment),
                out: st1.out,
            };
            lemma_text_emit(tokens, st2, i);
        },
        Err(_) => {},
    }
}

/// The pieces of a text are the text.
proof fn lemma_text_cut_text(
    tokens: Seq<TokenView>,
    max: int,
    st: SubState,
    token: TokenView,
    rest: Seq<u8>,
    start: nat,
    i: int,
)
    requires
        text_inv(tokens, st, i),
        valid_utf8(rest),
        rest.len() > 0,
        all_shaped(tokens) ==> no_lt(rest),
    ensures
        match cut_text(tokens, max, st, token, rest, start) {
            Ok(last) => text_inv(tokens, last, i) && carried(last) == carried(st) + rest,
            Err(_) => true,
        },
    decreases rest.len(),
{
    lemma_text_cut_once(tokens, max, st, token, rest, start, i);
    match cut_once(tokens, max, st, token, rest, start) {
        Ok(cut) => {
            let n = cut.taken as int;
            if 0 < cut.taken < rest.len() {
                lemma_text_cut_text(tokens, max, cut.state, token, rest.skip(n), start + cut.taken, i);
            }
        },
        Err(_) => {},
    }
}

/// Each step takes the text of the tokens that it passes.
proof fn lemma_text_step(
    tokens: Seq<TokenView>,
    max: int,
    names: Seq<Seq<u8>>,
    st: SubState,
    i: int,
)
    requires
        text_inv(tokens, st, i),
        never_underflows(tokens),
        0 <= i < tokens.len(),
    ensures
        match step(tokens, max, names, st, i) {
            Ok(walk) => {
                &&& text_inv(tokens, walk.state, walk.next)
                &&& i < walk.next <= tokens.len()
                &&& carried(walk.state) + text_of(tokens.skip(walk.next)) == carried(st)
                    + text_of(tokens.skip(i))
            },
            Err(_) => true,
        },
{
    lemma_step_advances(tokens, max, names, st, i);
    lemma_text_skip(tokens, i);
    let t = tokens[i];
    lemma_text_push_token(st.cur, t);
    let pushed = SubState { stack: st.stack, cur: push_token(st.cur, t), out: st.out };
    if t.is_open() {
        reveal(step_open);
        if has_close(tokens, i) {
            if must_eject(tokens, max, names, st, i) {
                reveal(eject);
                let j = close_of(tokens, i);
                lemma_close_behind(tokens, i);
                lemma_stack_skip(tokens, st.stack, i);
                lemma_stack_no_text(tokens, st.stack, i);
                lemma_text_emit(tokens, st, i);
                let opens = stack_opens(tokens, st.stack);
                let closes = stack_closes(tokens, st.stack).reverse();
                let inner = tokens.subrange(i, j + 1);
                let w = wrapped(tokens, i, j, st.stack);
                lemma_part_holds(tokens, i, j + 1);
                lemma_text_push_all(Seq::empty(), opens);
                lemma_no_text(opens);
                lemma_text_push_all(reopened(tokens, st.stack), inner);
                lemma_text_push_all(push_all(reopened(tokens, st.stack), inner), closes);
                lemma_no_text(closes);
                let done = st.out.push(closed(tokens, st.cur, st.stack));
                lemma_texts_push(done, w);
                assert(tokens.skip(i) =~= inner + tokens.skip(j + 1));
                lemma_text_add(inner, tokens.skip(j + 1));
                let walk = eject(tokens, max, st, i);
                assert(carried(walk.state) + text_of(tokens.skip(walk.next)) =~= carried(st)
                    + text_of(tokens.skip(i)));
            } else {
                lemma_text_emit(tokens, st, i);
                let from = if must_cut(tokens, max, st, i) {
                    emit(tokens, st)
                } else {
                    st
                };
                lemma_stack_push(tokens, from.stack, i);
                lemma_text_push_token(from.cur, t);
                let walk = enter(tokens, from, i);
                assert(carried(walk.state) + text_of(tokens.skip(walk.next)) =~= carried(st)
                    + text_of(tokens.skip(i)));
            }
        }
    } else if t.is_close() {
        lemma_stack_not_empty(tokens, st.stack, i);
        lemma_stack_pop(tokens, st.stack, i);
        let walk = step_close(tokens, st, i);
        assert(carried(walk.state) + text_of(tokens.skip(walk.next)) =~= carried(st) + text_of(
            tokens.skip(i),
        ));
    } else {
        reveal(step_text);
        lemma_stack_text(tokens, st.stack, i);
        if t.len() <= room(tokens, max, st) {
            assert(carried(pushed) + text_of(tokens.skip(i + 1)) =~= carried(st) + text_of(
                tokens.skip(i),
            ));
        } else if t.len() > 0 {
            lemma_text_cut_text(tokens, max, st, t, t.text, t.index, i);
            lemma_cut_text_stack(tokens, max, st, t, t.text, t.index);
            match cut_text(tokens, max, st, t, t.text, t.index) {
                Ok(last) => {
                    assert(carried(last) + text_of(tokens.skip(i + 1)) =~= carried(st) + text_of(
                        tokens.skip(i),
                    ));
                },
                Err(_) => {},
            }
        } else {
            reveal(cut_once);
        }
    }
}

/// A walk that comes to an end has taken the text of all tokens.
proof fn lemma_text_walk(
    tokens: Seq<TokenView>,
    max: int,
    names: Seq<Seq<u8>>,
    st: SubState,
    i: int,
)
    requires
        text_inv(tokens, st, i),
        never_underflows(tokens),
    ensures
        match walk_from(tokens, max, names, st, i) {
            Ok(groups) => texts_of(groups) == carried(st) + text_of(tokens.skip(i))
                && groups_valid(groups) && (all_shaped(tokens) ==> groups_shaped(groups)),
            Err(SplitErrorView::SubdividedExceedingTheLimit(groups)) => texts_of(groups)
                == carried(st) + text_of(tokens.skip(i)) && groups_valid(groups) && (all_shaped(
                tokens,
            ) ==> groups_shaped(groups)),
            Err(_) => true,
        },
    decreases tokens.len() - i,
{
    lemma_stack_order(tokens, st.stack, i);
    if i >= tokens.len() {
        reveal(finish);
        lemma_texts_push(st.out, st.cur);
        if all_open(st.cur) {
            assert(no_text(st.cur)) by {
                assert forall|k: int| 0 <= k < st.cur.len() implies !(
                #[trigger] st.cur[k]).is_text() by {}
            }
            lemma_no_text(st.cur);
        }
    } else {
        lemma_text_step(tokens, max, names, st, i);
        match step(tokens, max, names, st, i) {
            Ok(walk) => {
                lemma_text_walk(tokens, max, names, walk.state, walk.next);
            },
            Err(_) => {
                lemma_step_errors(tokens, max, names, st, i);
            },
        }
    }
}

/// The groups that a subdivision hands out, as a result or with the error for
/// a group over the budget, hold the text of the group that was subdivided,
/// byte for byte and in its order. Every token of theirs is valid UTF-8, and
/// reads as what it is if the tokens of the group do.
pub proof fn lemma_subdivide_keeps_text(tokens: Seq<TokenView>, max: int, names: Seq<Seq<u8>>)
    requires
        all_valid(tokens),
    ensures
        match spec_subdivide(tokens, max, names) {
            Ok(groups) => texts_of(groups) == text_of(tokens) && groups_valid(groups) && (
            all_shaped(tokens) ==> groups_shaped(groups)),
            Err(SplitErrorView::SubdividedExceedingTheLimit(groups)) => texts_of(groups)
                == text_of(tokens) && groups_valid(groups) && (all_shaped(tokens)
                ==> groups_shaped(groups)),
            Err(_) => true,
        },
{
    if max > 0 && never_underflows(tokens) {
        let start = SubState { stack: Seq::empty(), cur: Seq::empty(), out: Seq::empty() };
        lemma_stack_start(tokens);
        assert(tokens.skip(0) =~= tokens);
        lemma_text_walk(tokens, max, names, start, 0);
    }
}

} // verus!
