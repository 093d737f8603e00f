//! Which close tag closes which open tag.
//!
//! Tags are matched by their place alone, not by their names: the depth of a
//! place is the number of tags that are open there, and a close tag closes
//! the last open tag before it on whose depth it lands.

use crate::error::{SplitError, SplitErrorView};
use crate::token::{Token, TokenView};
use crate::token_group::TokenGroup;
use vstd::prelude::*;

verus! {

/// What a token adds to the depth.
pub open spec fn delta(token: TokenView) -> int {
    if token.is_open() {
        1
    } else if token.is_close() {
        -1
    } else {
        0
    }
}

/// The open tags less the close tags among the first `n` tokens.
pub open spec fn depth(tokens: Seq<TokenView>, n: int) -> int
    decreases n,
{
    if n <= 0 {
        0
    } else {
        depth(tokens, n - 1) + delta(tokens[n - 1])
    }
}

/// Whether the close tag at `j` closes the open tag at `i`: behind it the
/// depth is for the first time what it was before `i`.
#[verifier::opaque]
pub open spec fn closes_at(tokens: Seq<TokenView>, i: int, j: int) -> bool {
    &&& 0 <= i < j < tokens.len()
    &&& tokens[i].is_open()
    &&& tokens[j].is_close()
    &&& depth(tokens, j + 1) == depth(tokens, i)
    &&& forall|q: int| i < q <= j ==> #[trigger] depth(tokens, q) > depth(tokens, i)
}

/// Whether `i` holds an open tag that a later tag closes.
pub open spec fn has_close(tokens: Seq<TokenView>, i: int) -> bool {
    exists|j: int| closes_at(tokens, i, j)
}

/// The place of the tag that closes the open tag at `i`.
pub open spec fn close_of(tokens: Seq<TokenView>, i: int) -> int {
    choose|j: int| closes_at(tokens, i, j)
}

/// Whether no close tag comes without an open tag before it.
#[verifier::opaque]
pub open spec fn never_underflows(tokens: Seq<TokenView>) -> bool {
    forall|q: int| 0 <= q <= tokens.len() ==> #[trigger] depth(tokens, q) >= 0
}

/// Whether `k` holds the first close tag that closes nothing.
#[verifier::opaque]
pub open spec fn first_underflow(tokens: Seq<TokenView>, k: int) -> bool {
    &&& 0 <= k < tokens.len()
    &&& depth(tokens, k + 1) < 0
    &&& forall|q: int| 0 <= q <= k ==> #[trigger] depth(tokens, q) >= 0
}

/// The place of the first close tag that closes nothing.
pub open spec fn underflow_index(tokens: Seq<TokenView>) -> int {
    choose|k: int| first_underflow(tokens, k)
}

/// Whether every open tag is closed and every close tag closes one.
pub open spec fn balanced(tokens: Seq<TokenView>) -> bool {
    never_underflows(tokens) && depth(tokens, tokens.len() as int) == 0
}

/// An open tag has one close tag at most.
pub proof fn lemma_close_unique(tokens: Seq<TokenView>, i: int, j1: int, j2: int)
    requires
        closes_at(tokens, i, j1),
        closes_at(tokens, i, j2),
    ensures
        j1 == j2,
{
    reveal(closes_at);
}

/// The tag that closes an open tag is a close tag behind it.
pub proof fn lemma_close_behind(tokens: Seq<TokenView>, i: int)
    requires
        has_close(tokens, i),
    ensures
        0 <= i < close_of(tokens, i) < tokens.len(),
        tokens[i].is_open(),
        tokens[close_of(tokens, i)].is_close(),
        closes_at(tokens, i, close_of(tokens, i)),
{
    reveal(closes_at);
}

/// The tag that closes the open tag at `i`, once one is known.
pub proof fn lemma_close_of(tokens: Seq<TokenView>, i: int, j: int)
    requires
        closes_at(tokens, i, j),
    ensures
        has_close(tokens, i),
        close_of(tokens, i) == j,
{
    lemma_close_unique(tokens, i, j, close_of(tokens, i));
}

/// There is one first close tag that closes nothing at most.
pub proof fn lemma_underflow_unique(tokens: Seq<TokenView>, k: int)
    requires
        first_underflow(tokens, k),
    ensures
        underflow_index(tokens) == k,
        !never_underflows(tokens),
{
    reveal(first_underflow);
    reveal(never_underflows);
}

/// The close tag for each open tag of a group, by their places.
#[derive(Debug)]
pub struct OpenCloseMap {
    pub closes: Vec<usize>,
}

impl OpenCloseMap {
    /// The map holds, for each open tag of `tokens` that is closed, the
    /// place of its close tag, and the number of tokens for every other
    /// place.
    pub open spec fn matches(&self, tokens: Seq<TokenView>) -> bool {
        &&& self.closes@.len() == tokens.len()
        &&& forall|i: int|
            0 <= i < tokens.len() ==> #[trigger] self.closes@[i] == if has_close(tokens, i) {
                close_of(tokens, i)
            } else {
                tokens.len() as int
            }
    }
}

/// What the pass over the first `i` tokens has found: the open tags that are
/// not closed yet, and the close tags of the others.
pub open spec fn scan_inv(tokens: Seq<TokenView>, stack: Seq<usize>, closes: Seq<usize>, i: int)
    -> bool {
    let n = tokens.len() as int;
    &&& 0 <= i <= n
    &&& closes.len() == n
    &&& forall|q: int| 0 <= q <= i ==> #[trigger] depth(tokens, q) >= 0
    &&& stack.len() == depth(tokens, i)
    &&& forall|k: int|
        0 <= k < stack.len() ==> {
            &&& 0 <= (#[trigger] stack[k]) < i
            &&& tokens[stack[k] as int].is_open()
            &&& depth(tokens, stack[k] as int) == k
            &&& closes[stack[k] as int] == n
            &&& forall|q: int| stack[k] < q <= i ==> #[trigger] depth(tokens, q) > k
        }
    &&& forall|p: int|
        0 <= p < n ==> (#[trigger] closes[p]) == n || (closes[p] < i && closes_at(
            tokens,
            p,
            closes[p] as int,
        ))
    &&& forall|p: int|
        0 <= p < i && tokens[p].is_open() && (#[trigger] closes[p]) == n ==> 0 <= depth(tokens, p)
            < stack.len() && stack[depth(tokens, p)] == p
}

impl<'a> TokenGroup<'a> {
    /// Finds the close tag of each open tag in one pass. A close tag that
    /// closes nothing ends the pass; open tags that stay open do not.
    pub fn prepare_open_close_map(&self) -> (r: Result<OpenCloseMap, SplitError<'a>>)
        ensures
            match r {
                Ok(map) => map.matches(self@) && never_underflows(self@),
                Err(e) => !never_underflows(self@) && e@ == SplitErrorView::UnbalancedToken(
                    self@[underflow_index(self@)],
                ),
            },
    {
        let n = self.tokens.len();
        let mut closes: Vec<usize> = Vec::new();
        let mut k: usize = 0;
        while k < n
            invariant
                k <= n,
                closes@.len() == k,
                forall|p: int| 0 <= p < k ==> closes@[p] == n,
            decreases n - k,
        {
            closes.push(n);
            k += 1;
        }
        let mut stack: Vec<usize> = Vec::new();
        let mut i: usize = 0;
        while i < n
            invariant
                n == self.tokens.len(),
                scan_inv(self@, stack@, closes@, i as int),
            decreases n - i,
        {
            let token = self.tokens[i];
            let ghost tokens = self@;
            proof {
                reveal(closes_at);
                reveal(first_underflow);
            }
            match token {
                Token::OpenTag(_, _) => {
                    stack.push(i);
                    proof {
                        assert forall|k: int| 0 <= k < stack@.len() implies {
                            &&& 0 <= (#[trigger] stack@[k]) < i + 1
                            &&& tokens[stack@[k] as int].is_open()
                            &&& depth(tokens, stack@[k] as int) == k
                            &&& closes@[stack@[k] as int] == n
                            &&& forall|q: int|
                                stack@[k] < q <= i + 1 ==> #[trigger] depth(tokens, q) > k
                        } by {}
                    }
                },
                Token::CloseTag(_, _) => {
                    match stack.pop() {
                        None => {
                            proof {
                                lemma_underflow_unique(tokens, i as int);
                            }
                            return Err(SplitError::UnbalancedToken(token));
                        },
                        Some(open) => {
                            closes.set(open, i);
                            proof {
                                assert forall|k: int| 0 <= k < stack@.len() implies {
                                    &&& 0 <= (#[trigger] stack@[k]) < i + 1
                                    &&& tokens[stack@[k] as int].is_open()
                                    &&& depth(tokens, stack@[k] as int) == k
                                    &&& closes@[stack@[k] as int] == n
                                    &&& forall|q: int|
                                        stack@[k] < q <= i + 1 ==> #[trigger] depth(tokens, q) > k
                                } by {}
                                assert forall|p: int| 0 <= p < n implies (#[trigger] closes@[p])
                                    == n || (closes@[p] < i + 1 && closes_at(
                                    tokens,
                                    p,
                                    closes@[p] as int,
                                )) by {}
                                assert forall|p: int|
                                    0 <= p < i + 1 && tokens[p].is_open() && (
                                    #[trigger] closes@[p]) == n implies 0 <= depth(tokens, p)
                                    < stack@.len() && stack@[depth(tokens, p)] == p by {}
                            }
                        },
                    }
                },
                Token::Text(_, _) => {},
            }
            i += 1;
        }
        proof {
            let tokens = self@;
            reveal(closes_at);
            reveal(never_underflows);
            assert forall|p: int| 0 <= p < tokens.len() implies #[trigger] closes@[p]
                == if has_close(tokens, p) {
                close_of(tokens, p)
            } else {
                tokens.len() as int
            } by {
                if closes@[p] != n {
                    lemma_close_of(tokens, p, closes@[p] as int);
                }
            }
        }
        Ok(OpenCloseMap { closes })
    }

    /// The place of the close tag for the open tag at `open_token_index`.
    pub fn get_close_token_index(&self, open_token_index: usize, map: &OpenCloseMap) -> (r: Result<
        usize,
        SplitError<'a>,
    >)
        requires
            map.matches(self@),
            open_token_index < self@.len(),
        ensures
            match r {
                Ok(j) => has_close(self@, open_token_index as int) && j == close_of(
                    self@,
                    open_token_index as int,
                ) && open_token_index < j < self@.len(),
                Err(e) => !has_close(self@, open_token_index as int) && e@
                    == SplitErrorView::UnbalancedToken(self@[open_token_index as int]),
            },
    {
        let j = map.closes[open_token_index];
        if j < self.tokens.len() {
            proof {
                lemma_close_behind(self@, open_token_index as int);
            }
            Ok(j)
        } else {
            proof {
                if has_close(self@, open_token_index as int) {
                    lemma_close_behind(self@, open_token_index as int);
                }
            }
            Err(SplitError::UnbalancedToken(self.tokens[open_token_index]))
        }
    }
}

} // verus!
