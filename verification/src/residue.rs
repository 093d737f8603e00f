//! The open tags that a run of tokens leaves open.

use crate::matching::{balanced, closes_at, delta, depth, never_underflows};
use crate::token::TokenView;
use crate::token_group::{push_all, push_token};
use vstd::prelude::*;

verus! {

/// What is left open after one more token; nothing when the token is a close
/// tag and no tag is open.
pub open spec fn after(open: Option<Seq<TokenView>>, token: TokenView) -> Option<Seq<TokenView>> {
    match open {
        None => None,
        Some(stack) => if token.is_open() {
            Some(stack.push(token))
        } else if token.is_close() {
            if stack.len() > 0 {
                Some(stack.drop_last())
            } else {
                None
            }
        } else {
            Some(stack)
        },
    }
}

/// What is left open after a run of tokens.
pub open spec fn after_all(open: Option<Seq<TokenView>>, tokens: Seq<TokenView>) -> Option<
    Seq<TokenView>,
>
    decreases tokens.len(),
{
    if tokens.len() == 0 {
        open
    } else {
        after(after_all(open, tokens.drop_last()), tokens.last())
    }
}

/// The open tags that a run of tokens leaves open, the outermost first;
/// nothing when one of its close tags closes nothing.
pub open spec fn residue(tokens: Seq<TokenView>) -> Option<Seq<TokenView>> {
    after_all(Some(Seq::empty()), tokens)
}

/// Whether every token is an open tag.
pub open spec fn all_opens(tokens: Seq<TokenView>) -> bool {
    forall|k: int| 0 <= k < tokens.len() ==> (#[trigger] tokens[k]).is_open()
}

/// Whether every token is a close tag.
pub open spec fn all_closes(tokens: Seq<TokenView>) -> bool {
    forall|k: int| 0 <= k < tokens.len() ==> (#[trigger] tokens[k]).is_close()
}

/// The depth of a place depends on the tokens before it alone.
pub proof fn lemma_depth_prefix(a: Seq<TokenView>, b: Seq<TokenView>, n: int)
    requires
        0 <= n <= a.len(),
        n <= b.len(),
        forall|k: int| 0 <= k < n ==> a[k] == b[k],
    ensures
        depth(a, n) == depth(b, n),
    decreases n,
{
    if n > 0 {
        lemma_depth_prefix(a, b, n - 1);
    }
}

/// The depth inside a part of a run is the depth in the run, less the depth
/// at which the part starts.
pub proof fn lemma_depth_shift(tokens: Seq<TokenView>, from: int, to: int, q: int)
    requires
        0 <= from <= to <= tokens.len(),
        0 <= q <= to - from,
    ensures
        depth(tokens.subrange(from, to), q) == depth(tokens, from + q) - depth(tokens, from),
    decreases q,
{
    if q > 0 {
        lemma_depth_shift(tokens, from, to, q - 1);
    }
}

/// One more token behind a run.
pub proof fn lemma_after_all_push(
    open: Option<Seq<TokenView>>,
    tokens: Seq<TokenView>,
    token: TokenView,
)
    ensures
        after_all(open, tokens.push(token)) == after(after_all(open, tokens), token),
{
    assert(tokens.push(token).drop_last() =~= tokens);
}

/// Two runs, one behind the other.
pub proof fn lemma_after_all_add(open: Option<Seq<TokenView>>, a: Seq<TokenView>, b: Seq<TokenView>)
    ensures
        after_all(open, a + b) == after_all(after_all(open, a), b),
    decreases b.len(),
{
    if b.len() > 0 {
        lemma_after_all_add(open, a, b.drop_last());
        assert((a + b).drop_last() =~= a + b.drop_last());
    }
}

/// What a run leaves open does not depend on what was open before it, as
/// long as the run closes none of that.
pub proof fn lemma_after_all_frame(stack: Seq<TokenView>, tokens: Seq<TokenView>)
    requires
        residue(tokens) is Some,
    ensures
        after_all(Some(stack), tokens) == Some(stack + residue(tokens)->0),
    decreases tokens.len(),
{
    if tokens.len() > 0 {
        let before = tokens.drop_last();
        lemma_after_all_frame(stack, before);
    }
}

/// Open tags stay open.
pub proof fn lemma_residue_opens(tokens: Seq<TokenView>)
    requires
        all_opens(tokens),
    ensures
        residue(tokens) == Some(tokens),
    decreases tokens.len(),
{
    if tokens.len() > 0 {
        assert(all_opens(tokens.drop_last())) by {
            assert forall|k: int| 0 <= k < tokens.drop_last().len() implies (
            #[trigger] tokens.drop_last()[k]).is_open() by {}
        }
        lemma_residue_opens(tokens.drop_last());
    }
}

/// As many close tags as tags are open leave none open.
pub proof fn lemma_after_all_closes(stack: Seq<TokenView>, closes: Seq<TokenView>)
    requires
        all_closes(closes),
        closes.len() <= stack.len(),
    ensures
        after_all(Some(stack), closes) == Some(stack.take(stack.len() - closes.len())),
    decreases closes.len(),
{
    if closes.len() > 0 {
        let before = closes.drop_last();
        assert(all_closes(before)) by {
            assert forall|k: int| 0 <= k < before.len() implies (#[trigger] before[k]).is_close() by {}
        }
        lemma_after_all_closes(stack, before);
    }
}

/// A push into a group is one more token for what the group leaves open: the
/// open tag that a close tag takes away is the one it closes.
pub proof fn lemma_residue_push_token(group: Seq<TokenView>, token: TokenView)
    ensures
        residue(push_token(group, token)) == after(residue(group), token),
{
    if token.is_close() && group.len() > 0 && group.last().is_open() {
        let before = group.drop_last();
        lemma_after_all_push(Some(Seq::empty()), before, group.last());
    } else {
        lemma_after_all_push(Some(Seq::empty()), group, token);
    }
}

/// The same for a push of many.
pub proof fn lemma_residue_push_all(group: Seq<TokenView>, tokens: Seq<TokenView>)
    ensures
        residue(push_all(group, tokens)) == after_all(residue(group), tokens),
    decreases tokens.len(),
{
    if tokens.len() > 0 {
        lemma_residue_push_all(group, tokens.drop_last());
        lemma_residue_push_token(push_all(group, tokens.drop_last()), tokens.last());
    }
}

/// What a run leaves open is as much as its depth says, and it leaves
/// something open just when none of its close tags closes nothing.
pub proof fn lemma_residue_depth(tokens: Seq<TokenView>)
    ensures
        match residue(tokens) {
            Some(stack) => stack.len() == depth(tokens, tokens.len() as int) && never_underflows(
                tokens,
            ),
            None => !never_underflows(tokens),
        },
    decreases tokens.len(),
{
    reveal(never_underflows);
    let n = tokens.len() as int;
    if n > 0 {
        let before = tokens.drop_last();
        lemma_residue_depth(before);
        assert forall|q: int| 0 <= q <= n - 1 implies depth(tokens, q) == depth(before, q) by {
            lemma_depth_prefix(tokens, before, q);
        }
        match residue(before) {
            Some(stack) => {
                assert(depth(tokens, n) == stack.len() + delta(tokens[n - 1]));
                if !(tokens.last().is_close() && stack.len() == 0) {
                    assert forall|q: int| 0 <= q <= n implies #[trigger] depth(tokens, q)
                        >= 0 by {}
                }
            },
            None => {
            },
        }
    }
}

/// A run is in balance just when it leaves nothing open.
pub proof fn lemma_balanced_residue(tokens: Seq<TokenView>)
    ensures
        balanced(tokens) <==> residue(tokens) == Some(Seq::<TokenView>::empty()),
{
    lemma_residue_depth(tokens);
    match residue(tokens) {
        Some(stack) => {
            if stack.len() == 0 {
                assert(stack =~= Seq::<TokenView>::empty());
            }
        },
        None => {},
    }
}

/// The tokens from an open tag to the tag that closes it leave nothing open.
pub proof fn lemma_closed_part(tokens: Seq<TokenView>, i: int, j: int)
    requires
        closes_at(tokens, i, j),
    ensures
        residue(tokens.subrange(i, j + 1)) == Some(Seq::<TokenView>::empty()),
{
    reveal(closes_at);
    reveal(never_underflows);
    let part = tokens.subrange(i, j + 1);
    assert forall|q: int| 0 <= q <= part.len() implies #[trigger] depth(part, q) >= 0 by {
        lemma_depth_shift(tokens, i, j + 1, q);
    }
    lemma_depth_shift(tokens, i, j + 1, part.len() as int);
    lemma_balanced_residue(part);
}

/// Two runs in balance, one behind the other, are in balance.
pub proof fn lemma_balanced_add(a: Seq<TokenView>, b: Seq<TokenView>)
    requires
        balanced(a),
        balanced(b),
    ensures
        balanced(a + b),
{
    lemma_balanced_residue(a);
    lemma_balanced_residue(b);
    lemma_balanced_residue(a + b);
    lemma_after_all_add(Some(Seq::empty()), a, b);
    lemma_after_all_frame(Seq::empty(), b);
}

} // verus!
