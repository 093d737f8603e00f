//! What can go wrong when a source is split.

use crate::token::{Token, TokenView};
use crate::token_group::TokenGroup;
use vstd::prelude::*;
use vstd::utf8::*;

verus! {

/// The groups of a vector as values.
pub open spec fn group_views<'a>(groups: Seq<TokenGroup<'a>>) -> Seq<Seq<TokenView>> {
    groups.map_values(|g: TokenGroup<'a>| g@)
}

/// The strings of a vector as bytes.
pub open spec fn string_bytes(strings: Seq<String>) -> Seq<Seq<u8>> {
    strings.map_values(|s: String| encode_utf8(s@))
}

/// Whether every group holds the number of its bytes.
pub open spec fn all_wf<'a>(groups: Seq<TokenGroup<'a>>) -> bool {
    forall|k: int| 0 <= k < groups.len() ==> (#[trigger] groups[k]).wf()
}

/// One more group in a vector of groups.
pub proof fn lemma_group_views_push<'a>(groups: Seq<TokenGroup<'a>>, group: TokenGroup<'a>)
    ensures
        group_views(groups.push(group)) == group_views(groups).push(group@),
        all_wf(groups) && group.wf() ==> all_wf(groups.push(group)),
{
    if all_wf(groups) && group.wf() {
        assert forall|k: int| 0 <= k < groups.push(group).len() implies (#[trigger] groups.push(
            group,
        )[k]).wf() by {}
    }
}

/// An error as a value.
pub enum SplitErrorView {
    SubdivisionImpossible(Seq<TokenView>),
    SubdivisionImpossibleUnicode(TokenView),
    SubdividedExceedingTheLimit(Seq<Seq<TokenView>>),
    SplitExceededTheLimit(Seq<Seq<u8>>),
    UnbalancedToken(TokenView),
    InvalidLen(usize),
}

/// What stops a split or a subdivision.
#[derive(Debug)]
pub enum SplitError<'a> {
    /// The tags that are open take the whole budget: the group that could
    /// not be continued.
    SubdivisionImpossible(TokenGroup<'a>),
    /// A character of this text is larger than what is left of the budget.
    SubdivisionImpossibleUnicode(Token<'a>),
    /// A part that may not be split is larger than the budget: all groups,
    /// one of them too large.
    SubdividedExceedingTheLimit(Vec<TokenGroup<'a>>),
    /// The same, for `split`: all chunks, one of them too large.
    SplitExceededTheLimit(Vec<String>),
    /// A close tag that closes nothing, or an open tag that nothing closes.
    UnbalancedToken(Token<'a>),
    /// A budget of this size is of no use.
    InvalidLen(usize),
}

impl<'a> View for SplitError<'a> {
    type V = SplitErrorView;

    open spec fn view(&self) -> SplitErrorView {
        match *self {
            SplitError::SubdivisionImpossible(group) => SplitErrorView::SubdivisionImpossible(
                group@,
            ),
            SplitError::SubdivisionImpossibleUnicode(token) => {
                SplitErrorView::SubdivisionImpossibleUnicode(token@)
            },
            SplitError::SubdividedExceedingTheLimit(groups) => {
                SplitErrorView::SubdividedExceedingTheLimit(group_views(groups@))
            },
            SplitError::SplitExceededTheLimit(chunks) => SplitErrorView::SplitExceededTheLimit(
                string_bytes(chunks@),
            ),
            SplitError::UnbalancedToken(token) => SplitErrorView::UnbalancedToken(token@),
            SplitError::InvalidLen(len) => SplitErrorView::InvalidLen(len),
        }
    }
}

/// Whether the groups that an error carries hold the number of their bytes.
pub open spec fn error_wf<'a>(e: SplitError<'a>) -> bool {
    match e {
        SplitError::SubdividedExceedingTheLimit(groups) => all_wf(groups@),
        SplitError::SubdivisionImpossible(group) => group.wf(),
        _ => true,
    }
}

} // verus!
