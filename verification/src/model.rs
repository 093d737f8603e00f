//! Subdivision as a function: what becomes of a group, a budget and a list of
//! names of tags that are not to be split.
//!
//! The tokens of the group are walked from the first to the last. What is
//! carried along is the stack of the open tags that are not closed yet, the
//! group that is being filled, and the groups that are done.

use crate::error::SplitErrorView;
use crate::ext::spec_split_whitespace;
use crate::matching::{close_of, has_close, lemma_close_behind, never_underflows, underflow_index};
use crate::token::{spec_tag_name, TokenKind, TokenView};
use crate::token_group::{all_open, push_all, push_token, total_len};
use vstd::prelude::*;
use vstd::utf8::*;

verus! {

/// What the walk carries along.
pub struct SubState {
    /// The places of the open tags that are not closed yet, the outermost
    /// first.
    pub stack: Seq<int>,
    /// The group that is being filled.
    pub cur: Seq<TokenView>,
    /// The groups that are done.
    pub out: Seq<Seq<TokenView>>,
}

/// Where the walk stands after a token: what it carries, and the place of the
/// token it looks at next.
pub struct Walk {
    pub state: SubState,
    pub next: int,
}

/// Where the walk stands after a piece of text: what it carries, and the
/// number of bytes of the piece.
pub struct Cut {
    pub state: SubState,
    pub taken: nat,
}

/// The open tags of a stack, the outermost first.
pub open spec fn stack_opens(tokens: Seq<TokenView>, stack: Seq<int>) -> Seq<TokenView> {
    Seq::new(stack.len(), |k: int| tokens[stack[k]])
}

/// The close tags that a stack is waiting for, in the order of the stack.
pub open spec fn stack_closes(tokens: Seq<TokenView>, stack: Seq<int>) -> Seq<TokenView> {
    Seq::new(stack.len(), |k: int| tokens[close_of(tokens, stack[k])])
}

/// The bytes that the close tags of a stack will take.
pub open spec fn future_close_len(tokens: Seq<TokenView>, stack: Seq<int>) -> nat {
    total_len(stack_closes(tokens, stack))
}

/// A group with every tag of the stack closed, the innermost first.
pub open spec fn closed(tokens: Seq<TokenView>, group: Seq<TokenView>, stack: Seq<int>) -> Seq<
    TokenView,
> {
    push_all(group, stack_closes(tokens, stack).reverse())
}

/// A new group in which every tag of the stack is open again.
pub open spec fn reopened(tokens: Seq<TokenView>, stack: Seq<int>) -> Seq<TokenView> {
    push_all(Seq::empty(), stack_opens(tokens, stack))
}

/// A group of its own for the tokens from `i` to `j`, inside the tags of the
/// stack.
pub open spec fn wrapped(tokens: Seq<TokenView>, i: int, j: int, stack: Seq<int>) -> Seq<
    TokenView,
> {
    push_all(
        push_all(reopened(tokens, stack), tokens.subrange(i, j + 1)),
        stack_closes(tokens, stack).reverse(),
    )
}

/// The bytes that are left of the budget once the group that is being filled
/// is closed.
pub open spec fn room(tokens: Seq<TokenView>, max: int, st: SubState) -> int {
    max - future_close_len(tokens, st.stack) - total_len(st.cur)
}

/// The group that is being filled is closed and done, and a new one starts
/// with the same tags open.
pub open spec fn emit(tokens: Seq<TokenView>, st: SubState) -> SubState {
    SubState {
        stack: st.stack,
        cur: reopened(tokens, st.stack),
        out: st.out.push(closed(tokens, st.cur, st.stack)),
    }
}

/// Whether the open tag at `i` starts a part that is not to be split and does
/// not fit behind what the group holds.
pub open spec fn must_eject(
    tokens: Seq<TokenView>,
    max: int,
    names: Seq<Seq<u8>>,
    st: SubState,
    i: int,
) -> bool {
    let span = tokens[close_of(tokens, i)].end() - tokens[i].index;
    names.contains(spec_tag_name(tokens[i])) && span > room(tokens, max, st)
}

/// The part from the open tag at `i` to its close tag gets a group of its
/// own. Where that group leaves no room, it is done at once.
#[verifier::opaque]
pub open spec fn eject(tokens: Seq<TokenView>, max: int, st: SubState, i: int) -> Walk {
    let j = close_of(tokens, i);
    let done = st.out.push(closed(tokens, st.cur, st.stack));
    let w = wrapped(tokens, i, j, st.stack);
    if total_len(w) + future_close_len(tokens, st.stack) >= max {
        Walk {
            state: SubState {
                stack: st.stack,
                cur: reopened(tokens, st.stack),
                out: done.push(w),
            },
            next: j + 1,
        }
    } else {
        Walk { state: SubState { stack: st.stack, cur: w, out: done }, next: j + 1 }
    }
}

/// Whether, with the open tag at `i` and its close tag, the group that is
/// being filled could not be closed within the budget.
pub open spec fn must_cut(tokens: Seq<TokenView>, max: int, st: SubState, i: int) -> bool {
    tokens[i].len() + tokens[close_of(tokens, i)].len() >= room(tokens, max, st)
}

/// The open tag at `i` enters the group and the stack.
pub open spec fn enter(tokens: Seq<TokenView>, st: SubState, i: int) -> Walk {
    Walk {
        state: SubState {
            stack: st.stack.push(i),
            cur: push_token(st.cur, tokens[i]),
            out: st.out,
        },
        next: i + 1,
    }
}

/// The walk takes the open tag at `i`.
#[verifier::opaque]
pub open spec fn step_open(
    tokens: Seq<TokenView>,
    max: int,
    names: Seq<Seq<u8>>,
    st: SubState,
    i: int,
) -> Result<Walk, SplitErrorView> {
    if !has_close(tokens, i) {
        Err(SplitErrorView::UnbalancedToken(tokens[i]))
    } else if must_eject(tokens, max, names, st, i) {
        Ok(eject(tokens, max, st, i))
    } else if must_cut(tokens, max, st, i) {
        if all_open(st.cur) {
            Err(SplitErrorView::SubdivisionImpossible(st.cur))
        } else {
            Ok(enter(tokens, emit(tokens, st), i))
        }
    } else {
        Ok(enter(tokens, st, i))
    }
}

/// The walk takes the close tag at `i`.
pub open spec fn step_close(tokens: Seq<TokenView>, st: SubState, i: int) -> Walk {
    Walk {
        state: SubState {
            stack: st.stack.drop_last(),
            cur: push_token(st.cur, tokens[i]),
            out: st.out,
        },
        next: i + 1,
    }
}

/// One piece is cut off `rest`, which is what is left of the text of `token`
/// and starts at `start` in the source. The piece ends the group it enters.
/// A group that is full is done before.
#[verifier::opaque]
pub open spec fn cut_once(
    tokens: Seq<TokenView>,
    max: int,
    st: SubState,
    token: TokenView,
    rest: Seq<u8>,
    start: nat,
) -> Result<Cut, SplitErrorView> {
    let st1 = if room(tokens, max, st) == 0 {
        emit(tokens, st)
    } else {
        st
    };
    if room(tokens, max, st) < 0 {
        Err(SplitErrorView::SubdivisionImpossible(st.cur))
    } else if room(tokens, max, st1) <= 0 {
        Err(SplitErrorView::SubdivisionImpossible(st1.cur))
    } else {
        match spec_split_whitespace(rest, room(tokens, max, st1)) {
            None => Err(SplitErrorView::SubdivisionImpossibleUnicode(token)),
            Some(piece) => {
                let segment = TokenView { kind: TokenKind::Text, text: piece, index: start };
                Ok(
                    Cut {
                        state: emit(
                            tokens,
                            SubState {
                                stack: st1.stack,
                                cur: push_token(st1.cur, segment),
                                out: st1.out,
                            },
                        ),
                        taken: piece.len(),
                    },
                )
            },
        }
    }
}

/// A text that does not fit is cut into pieces, one after the other, until
/// nothing is left of it.
pub open spec fn cut_text(
    tokens: Seq<TokenView>,
    max: int,
    st: SubState,
    token: TokenView,
    rest: Seq<u8>,
    start: nat,
) -> Result<SubState, SplitErrorView>
    decreases rest.len(),
{
    match cut_once(tokens, max, st, token, rest, start) {
        Err(e) => Err(e),
        Ok(cut) => {
            if 0 < cut.taken < rest.len() {
                cut_text(
                    tokens,
                    max,
                    cut.state,
                    token,
                    rest.skip(cut.taken as int),
                    start + cut.taken,
                )
            } else {
                Ok(cut.state)
            }
        },
    }
}

/// The walk takes the text at `i`.
#[verifier::opaque]
pub open spec fn step_text(tokens: Seq<TokenView>, max: int, st: SubState, i: int) -> Result<
    Walk,
    SplitErrorView,
> {
    let t = tokens[i];
    if t.len() <= room(tokens, max, st) {
        Ok(
            Walk {
                state: SubState { stack: st.stack, cur: push_token(st.cur, t), out: st.out },
                next: i + 1,
            },
        )
    } else {
        match cut_text(tokens, max, st, t, t.text, t.index) {
            Err(e) => Err(e),
            Ok(st2) => Ok(Walk { state: st2, next: i + 1 }),
        }
    }
}

/// The walk takes the token at `i`.
pub open spec fn step(
    tokens: Seq<TokenView>,
    max: int,
    names: Seq<Seq<u8>>,
    st: SubState,
    i: int,
) -> Result<Walk, SplitErrorView> {
    if tokens[i].is_open() {
        step_open(tokens, max, names, st, i)
    } else if tokens[i].is_close() {
        Ok(step_close(tokens, st, i))
    } else {
        step_text(tokens, max, st, i)
    }
}

/// Whether a group is larger than the budget.
pub open spec fn some_exceeds(groups: Seq<Seq<TokenView>>, max: int) -> bool {
    exists|k: int| 0 <= k < groups.len() && total_len(#[trigger] groups[k]) > max
}

/// The groups at the end of the walk: the group that is being filled is done
/// too, if it holds more than open tags.
pub open spec fn last_out(st: SubState) -> Seq<Seq<TokenView>> {
    if st.cur.len() > 0 && !all_open(st.cur) {
        st.out.push(st.cur)
    } else {
        st.out
    }
}

/// The end of the walk. A group over the budget makes the whole an error that
/// carries all groups.
#[verifier::opaque]
pub open spec fn finish(max: int, st: SubState) -> Result<Seq<Seq<TokenView>>, SplitErrorView> {
    if some_exceeds(last_out(st), max) {
        Err(SplitErrorView::SubdividedExceedingTheLimit(last_out(st)))
    } else {
        Ok(last_out(st))
    }
}

/// The walk from the token at `i` to the end.
pub open spec fn walk_from(
    tokens: Seq<TokenView>,
    max: int,
    names: Seq<Seq<u8>>,
    st: SubState,
    i: int,
) -> Result<Seq<Seq<TokenView>>, SplitErrorView>
    decreases tokens.len() - i,
{
    if i < 0 || i >= tokens.len() {
        finish(max, st)
    } else {
        match step(tokens, max, names, st, i) {
            Err(e) => Err(e),
            Ok(walk) => {
                proof {
                    lemma_step_advances(tokens, max, names, st, i);
                }
                walk_from(tokens, max, names, walk.state, walk.next)
            },
        }
    }
}

/// What becomes of a group under a budget: groups that are each within the
/// budget, or the error that stopped the walk.
pub open spec fn spec_subdivide(tokens: Seq<TokenView>, max: int, names: Seq<Seq<u8>>) -> Result<
    Seq<Seq<TokenView>>,
    SplitErrorView,
> {
    if max <= 0 {
        Err(SplitErrorView::InvalidLen(0))
    } else if !never_underflows(tokens) {
        Err(SplitErrorView::UnbalancedToken(tokens[underflow_index(tokens)]))
    } else {
        walk_from(
            tokens,
            max,
            names,
            SubState { stack: Seq::empty(), cur: Seq::empty(), out: Seq::empty() },
            0,
        )
    }
}

/// Cutting text leaves the stack as it is.
pub proof fn lemma_cut_text_stack(
    tokens: Seq<TokenView>,
    max: int,
    st: SubState,
    token: TokenView,
    rest: Seq<u8>,
    start: nat,
)
    ensures
        match cut_text(tokens, max, st, token, rest, start) {
            Ok(last) => last.stack == st.stack,
            Err(_) => true,
        },
    decreases rest.len(),
{
    reveal(cut_once);
    match cut_once(tokens, max, st, token, rest, start) {
        Ok(cut) => {
            if 0 < cut.taken < rest.len() {
                lemma_cut_text_stack(
                    tokens,
                    max,
                    cut.state,
                    token,
                    rest.skip(cut.taken as int),
                    start + cut.taken,
                );
            }
        },
        Err(_) => {},
    }
}

/// Cutting text never ends in one of the errors that carry all groups or all
/// chunks.
pub proof fn lemma_cut_errors(
    tokens: Seq<TokenView>,
    max: int,
    st: SubState,
    token: TokenView,
    rest: Seq<u8>,
    start: nat,
)
    ensures
        !(cut_text(tokens, max, st, token, rest, start) matches Err(
            SplitErrorView::SubdividedExceedingTheLimit(_),
        )),
        !(cut_text(tokens, max, st, token, rest, start) matches Err(
            SplitErrorView::SplitExceededTheLimit(_),
        )),
    decreases rest.len(),
{
    reveal(cut_once);
    match cut_once(tokens, max, st, token, rest, start) {
        Ok(cut) => {
            if 0 < cut.taken < rest.len() {
                lemma_cut_errors(
                    tokens,
                    max,
                    cut.state,
                    token,
                    rest.skip(cut.taken as int),
                    start + cut.taken,
                );
            }
        },
        Err(_) => {},
    }
}

/// No step ends in one of the errors that carry all groups or all chunks.
pub proof fn lemma_step_errors(
    tokens: Seq<TokenView>,
    max: int,
    names: Seq<Seq<u8>>,
    st: SubState,
    i: int,
)
    ensures
        !(step(tokens, max, names, st, i) matches Err(
            SplitErrorView::SubdividedExceedingTheLimit(_),
        )),
        !(step(tokens, max, names, st, i) matches Err(SplitErrorView::SplitExceededTheLimit(_))),
{
    reveal(step_open);
    reveal(step_text);
    if tokens[i].is_text() {
        lemma_cut_errors(tokens, max, st, tokens[i], tokens[i].text, tokens[i].index);
    }
}

/// No subdivision ends in the error that carries all chunks.
pub proof fn lemma_walk_errors(
    tokens: Seq<TokenView>,
    max: int,
    names: Seq<Seq<u8>>,
    st: SubState,
    i: int,
)
    ensures
        !(walk_from(tokens, max, names, st, i) matches Err(
            SplitErrorView::SplitExceededTheLimit(_),
        )),
    decreases tokens.len() - i,
{
    reveal(finish);
    if 0 <= i < tokens.len() {
        lemma_step_errors(tokens, max, names, st, i);
        lemma_step_advances(tokens, max, names, st, i);
        match step(tokens, max, names, st, i) {
            Ok(walk) => lemma_walk_errors(tokens, max, names, walk.state, walk.next),
            Err(_) => {},
        }
    }
}

/// Each step moves the walk forward, and not past the end.
pub proof fn lemma_step_advances(
    tokens: Seq<TokenView>,
    max: int,
    names: Seq<Seq<u8>>,
    st: SubState,
    i: int,
)
    requires
        0 <= i < tokens.len(),
    ensures
        match step(tokens, max, names, st, i) {
            Ok(walk) => i < walk.next <= tokens.len(),
            Err(_) => true,
        },
{
    reveal(step_open);
    reveal(step_text);
    reveal(eject);
    if tokens[i].is_open() && has_close(tokens, i) {
        lemma_close_behind(tokens, i);
    }
}

} // verus!
