//! Top-level groups: the tokens of a source, cut wherever no tag is open.

use crate::error::SplitErrorView;
use crate::matching::{
    depth, first_underflow, lemma_underflow_unique, never_underflows, underflow_index,
};
use crate::token::TokenView;
use crate::token_group::push_all;
use vstd::prelude::*;

verus! {

/// The place behind the last of the first `n` tokens at which no tag was
/// open: where the group starts that holds the token at `n`.
pub open spec fn group_start(tokens: Seq<TokenView>, n: int) -> int
    decreases n,
{
    if n <= 0 {
        0
    } else if depth(tokens, n) == 0 {
        n
    } else {
        group_start(tokens, n - 1)
    }
}

/// The groups that end among the first `n` tokens. A group ends behind each
/// token behind which no tag is open, and holds the tokens since the last
/// such place, pushed one after the other.
pub open spec fn spec_groups(tokens: Seq<TokenView>, n: int) -> Seq<Seq<TokenView>>
    decreases n,
{
    if n <= 0 {
        Seq::empty()
    } else if depth(tokens, n) == 0 {
        spec_groups(tokens, n - 1).push(
            push_all(Seq::empty(), tokens.subrange(group_start(tokens, n - 1), n)),
        )
    } else {
        spec_groups(tokens, n - 1)
    }
}

/// The last place before `n` at which fewer than `level` tags were open:
/// the place of the open tag that brought the depth to `level` for the last
/// time.
pub open spec fn last_below(tokens: Seq<TokenView>, n: int, level: int) -> int
    decreases n,
{
    if n <= 0 {
        0
    } else if depth(tokens, n - 1) < level {
        n - 1
    } else {
        last_below(tokens, n - 1, level)
    }
}

/// The top-level groups of a run of tokens. A close tag that closes nothing
/// is an error, and so is an open tag that nothing closes: then the last such
/// tag is reported.
pub open spec fn spec_prepare(tokens: Seq<TokenView>) -> Result<
    Seq<Seq<TokenView>>,
    SplitErrorView,
> {
    let n = tokens.len() as int;
    if !never_underflows(tokens) {
        Err(SplitErrorView::UnbalancedToken(tokens[underflow_index(tokens)]))
    } else if depth(tokens, n) > 0 {
        Err(SplitErrorView::UnbalancedToken(tokens[last_below(tokens, n, depth(tokens, n))]))
    } else {
        Ok(spec_groups(tokens, n))
    }
}

/// Whether no close tag among the first `n` tokens closes nothing.
#[verifier::opaque]
pub open spec fn prefix_ok(tokens: Seq<TokenView>, n: int) -> bool {
    forall|q: int| 0 <= q <= n ==> #[trigger] depth(tokens, q) >= 0
}

/// Whether `stack` holds the open tags among the first `n` tokens that are
/// not closed there, the outermost first.
#[verifier::opaque]
pub open spec fn tops(tokens: Seq<TokenView>, stack: Seq<TokenView>, n: int) -> bool {
    &&& stack.len() == depth(tokens, n)
    &&& forall|k: int|
        0 <= k < stack.len() ==> #[trigger] stack[k] == tokens[last_below(tokens, n, k + 1)]
}

/// Before the first token nothing is open and nothing has gone wrong.
pub proof fn lemma_prefix_start(tokens: Seq<TokenView>)
    ensures
        prefix_ok(tokens, 0),
        tops(tokens, Seq::empty(), 0),
{
    reveal(prefix_ok);
    reveal(tops);
}

/// One more token, behind which the depth is not negative.
pub proof fn lemma_prefix_step(tokens: Seq<TokenView>, n: int)
    requires
        prefix_ok(tokens, n),
        0 <= n,
        depth(tokens, n + 1) >= 0,
    ensures
        prefix_ok(tokens, n + 1),
{
    reveal(prefix_ok);
}

/// One more token, which closes nothing.
pub proof fn lemma_prefix_underflow(tokens: Seq<TokenView>, n: int)
    requires
        prefix_ok(tokens, n),
        0 <= n < tokens.len(),
        depth(tokens, n + 1) < 0,
    ensures
        !never_underflows(tokens),
        underflow_index(tokens) == n,
{
    reveal(prefix_ok);
    reveal(first_underflow);
    lemma_underflow_unique(tokens, n);
}

/// All tokens, none of which closes nothing.
pub proof fn lemma_prefix_end(tokens: Seq<TokenView>)
    requires
        prefix_ok(tokens, tokens.len() as int),
    ensures
        never_underflows(tokens),
{
    reveal(prefix_ok);
    reveal(never_underflows);
}

/// The stack is as deep as the tokens so far.
pub proof fn lemma_tops_depth(tokens: Seq<TokenView>, stack: Seq<TokenView>, n: int)
    requires
        tops(tokens, stack, n),
    ensures
        stack.len() == depth(tokens, n),
{
    reveal(tops);
}

/// Behind an open tag the stack holds that tag too.
pub proof fn lemma_tops_open(tokens: Seq<TokenView>, stack: Seq<TokenView>, n: int)
    requires
        tops(tokens, stack, n),
        0 <= n < tokens.len(),
        tokens[n].is_open(),
    ensures
        tops(tokens, stack.push(tokens[n]), n + 1),
{
    reveal(tops);
    let pushed = stack.push(tokens[n]);
    assert forall|k: int| 0 <= k < pushed.len() implies #[trigger] pushed[k]
        == tokens[last_below(tokens, n + 1, k + 1)] by {}
}

/// Behind a close tag the stack is without its last tag.
pub proof fn lemma_tops_close(tokens: Seq<TokenView>, stack: Seq<TokenView>, n: int)
    requires
        tops(tokens, stack, n),
        0 <= n < tokens.len(),
        tokens[n].is_close(),
        stack.len() > 0,
    ensures
        tops(tokens, stack.drop_last(), n + 1),
{
    reveal(tops);
    let popped = stack.drop_last();
    assert forall|k: int| 0 <= k < popped.len() implies #[trigger] popped[k]
        == tokens[last_below(tokens, n + 1, k + 1)] by {}
}

/// Text leaves the stack as it is.
pub proof fn lemma_tops_text(tokens: Seq<TokenView>, stack: Seq<TokenView>, n: int)
    requires
        tops(tokens, stack, n),
        0 <= n < tokens.len(),
        tokens[n].is_text(),
    ensures
        tops(tokens, stack, n + 1),
{
    reveal(tops);
    assert forall|k: int| 0 <= k < stack.len() implies #[trigger] stack[k]
        == tokens[last_below(tokens, n + 1, k + 1)] by {}
}

/// The last tag of the stack is the last open tag that nothing closes.
pub proof fn lemma_tops_last(tokens: Seq<TokenView>, stack: Seq<TokenView>, n: int)
    requires
        tops(tokens, stack, n),
        stack.len() > 0,
    ensures
        stack.last() == tokens[last_below(tokens, n, depth(tokens, n))],
{
    reveal(tops);
}

} // verus!
