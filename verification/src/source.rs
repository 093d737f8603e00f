//! Where tokens lie in their source.
//!
//! The tokens of a group come from one source and stand in the order in which
//! they lie there: each one starts at or behind the end of the one before it.

use crate::token::TokenView;
use crate::token_group::{lemma_total_len_push, none_empty, push_token, total_len, TokenGroup};
use vstd::prelude::*;

verus! {

/// Whether each token lies behind the ones before it.
#[verifier::opaque]
pub open spec fn in_source_order(tokens: Seq<TokenView>) -> bool {
    forall|i: int, j: int|
        0 <= i < j < tokens.len() ==> (#[trigger] tokens[i]).end() <= (#[trigger] tokens[j]).index
}

/// The offset at which the last token ends.
pub open spec fn source_end(tokens: Seq<TokenView>) -> nat {
    if tokens.len() == 0 {
        0
    } else {
        tokens.last().end()
    }
}

/// The offset at which the token at `i` starts; the end of the last token for
/// the place behind it.
pub open spec fn start_of(tokens: Seq<TokenView>, i: int) -> nat {
    if 0 <= i < tokens.len() {
        tokens[i].index
    } else {
        source_end(tokens)
    }
}

/// Whether the places rise and lie below `n`.
pub open spec fn rising(places: Seq<int>, n: int) -> bool {
    &&& forall|k: int| 0 <= k < places.len() ==> 0 <= #[trigger] places[k] < n
    &&& forall|k: int, l: int|
        0 <= k < l < places.len() ==> (#[trigger] places[k]) < (#[trigger] places[l])
}

/// The tokens at the given places.
pub open spec fn pick(tokens: Seq<TokenView>, places: Seq<int>) -> Seq<TokenView> {
    Seq::new(places.len(), |k: int| tokens[places[k]])
}

/// No tokens are in order.
pub proof fn lemma_order_empty()
    ensures
        in_source_order(Seq::empty()),
{
    reveal(in_source_order);
}

/// Every token ends at or before the end of the source, and starts at or
/// behind the ends of the tokens before it.
pub proof fn lemma_start_of(tokens: Seq<TokenView>, i: int, j: int)
    requires
        in_source_order(tokens),
        0 <= i < j <= tokens.len(),
    ensures
        tokens[i].end() <= start_of(tokens, j),
        start_of(tokens, i) <= start_of(tokens, j),
        start_of(tokens, j) <= source_end(tokens),
{
    reveal(in_source_order);
    let last = tokens.len() - 1;
}

/// Tokens at rising places take no more bytes than lie between the start of
/// the first and the end of the last.
pub proof fn lemma_pick_len(tokens: Seq<TokenView>, places: Seq<int>)
    requires
        in_source_order(tokens),
        rising(places, tokens.len() as int),
        places.len() > 0,
    ensures
        total_len(pick(tokens, places)) + tokens[places[0]].index <= tokens[places.last()].end(),
    decreases places.len(),
{
    reveal(in_source_order);
    let before = places.drop_last();
    assert(pick(tokens, places).drop_last() =~= pick(tokens, before));
    if before.len() > 0 {
        assert(rising(before, tokens.len() as int)) by {
            assert forall|k: int, l: int| 0 <= k < l < before.len() implies (#[trigger] before[k])
                < (#[trigger] before[l]) by {}
            assert forall|k: int| 0 <= k < before.len() implies 0 <= #[trigger] before[k]
                < tokens.len() by {}
        }
        lemma_pick_len(tokens, before);
    }
}

/// The tokens from `i` up to `j` take no more bytes than lie between the
/// starts of the two.
pub proof fn lemma_range_len(tokens: Seq<TokenView>, i: int, j: int)
    requires
        in_source_order(tokens),
        0 <= i <= j <= tokens.len(),
    ensures
        total_len(tokens.subrange(i, j)) + start_of(tokens, i) <= start_of(tokens, j) || i == j,
        i == j ==> total_len(tokens.subrange(i, j)) == 0,
    decreases j - i,
{
    reveal(in_source_order);
    if i < j {
        let part = tokens.subrange(i, j);
        assert(part.drop_last() =~= tokens.subrange(i, j - 1));
        lemma_range_len(tokens, i, j - 1);
        lemma_start_of(tokens, j - 1, j);
    }
}

/// A token that lies behind a group can be pushed, and the group stays in
/// order.
pub proof fn lemma_push_order(group: Seq<TokenView>, token: TokenView)
    requires
        in_source_order(group),
        source_end(group) <= token.index,
    ensures
        in_source_order(push_token(group, token)),
        source_end(push_token(group, token)) <= token.end(),
{
    reveal(in_source_order);
    let pushed = push_token(group, token);
    if pushed == group.push(token) {
        assert forall|i: int, j: int| 0 <= i < j < pushed.len() implies (#[trigger] pushed[i]).end()
            <= (#[trigger] pushed[j]).index by {}
    } else {
        assert forall|i: int, j: int| 0 <= i < j < pushed.len() implies (#[trigger] pushed[i]).end()
            <= (#[trigger] pushed[j]).index by {}
    }
}

/// One more token behind a run that ends before it starts.
pub proof fn lemma_order_push(tokens: Seq<TokenView>, token: TokenView)
    requires
        in_source_order(tokens),
        source_end(tokens) <= token.index,
    ensures
        in_source_order(tokens.push(token)),
{
    reveal(in_source_order);
    let pushed = tokens.push(token);
    assert forall|i: int, j: int| 0 <= i < j < pushed.len() implies (#[trigger] pushed[i]).end() <= (
    #[trigger] pushed[j]).index by {}
}

/// A token that starts before the one before it ends is out of order.
pub proof fn lemma_order_broken(tokens: Seq<TokenView>, i: int)
    requires
        0 < i < tokens.len(),
        tokens[i].index < tokens[i - 1].end(),
    ensures
        !in_source_order(tokens),
{
    reveal(in_source_order);
}

impl<'a> TokenGroup<'a> {
    /// Whether the group can be subdivided: it holds the number of its bytes,
    /// none of its tokens is empty, each lies behind the one before it, and
    /// twice the offset at which the last one ends is a number that fits.
    pub fn is_valid(&self) -> (r: bool)
        ensures
            r == (self.wf() && in_source_order(self@) && 2 * source_end(self@) <= usize::MAX),
    {
        let ghost tokens = self@;
        let n = self.tokens.len();
        let mut sum: usize = 0;
        let mut end: usize = 0;
        let mut i: usize = 0;
        proof {
            assert(tokens.take(0) =~= Seq::<TokenView>::empty());
            lemma_order_empty();
        }
        while i < n
            invariant
                tokens == self@,
                n == tokens.len(),
                n == self.tokens@.len(),
                i <= n,
                none_empty(tokens.take(i as int)),
                in_source_order(tokens.take(i as int)),
                sum == total_len(tokens.take(i as int)),
                end == source_end(tokens.take(i as int)),
                sum <= end,
                2 * end <= usize::MAX,
            decreases n - i,
        {
            let token = self.tokens[i];
            let len = token.len();
            let index = token.index();
            let ghost before = tokens.take(i as int);
            proof {
                assert(tokens.take(i + 1) =~= before.push(token@));
                lemma_total_len_push(before, token@);
            }
            if len == 0 {
                return false;
            }
            if index < end {
                proof {
                    lemma_order_broken(tokens, i as int);
                }
                return false;
            }
            if index > usize::MAX / 2 || len > usize::MAX / 2 - index {
                proof {
                    if in_source_order(tokens) {
                        lemma_start_of(tokens, i as int, n as int);
                    }
                }
                return false;
            }
            proof {
                lemma_order_push(before, token@);
                assert forall|k: int| 0 <= k < i + 1 implies (#[trigger] tokens.take(i + 1)[k]).len()
                    > 0 by {}
            }
            sum += len;
            end = index + len;
            i += 1;
        }
        proof {
            assert(tokens.take(n as int) =~= tokens);
        }
        sum == self.len
    }
}

} // verus!
