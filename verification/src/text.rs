//! The text that tokens hold, without their tags.

use crate::token::TokenView;
use crate::token_group::{push_all, push_token};
use crate::tokenizer::{GT, LT};
use vstd::prelude::*;
use vstd::utf8::*;

verus! {

/// The text of a token: its bytes when it is text, nothing when it is a tag.
pub open spec fn text_part(token: TokenView) -> Seq<u8> {
    if token.is_text() {
        token.text
    } else {
        Seq::empty()
    }
}

/// The text of a run of tokens.
pub open spec fn text_of(tokens: Seq<TokenView>) -> Seq<u8>
    decreases tokens.len(),
{
    if tokens.len() == 0 {
        Seq::empty()
    } else {
        text_of(tokens.drop_last()) + text_part(tokens.last())
    }
}

/// The text of groups, one group after the other.
pub open spec fn texts_of(groups: Seq<Seq<TokenView>>) -> Seq<u8>
    decreases groups.len(),
{
    if groups.len() == 0 {
        Seq::empty()
    } else {
        texts_of(groups.drop_last()) + text_of(groups.last())
    }
}

/// Whether no token is text.
pub open spec fn no_text(tokens: Seq<TokenView>) -> bool {
    forall|k: int| 0 <= k < tokens.len() ==> !(#[trigger] tokens[k]).is_text()
}

/// Whether the bytes of every token are valid UTF-8.
pub open spec fn all_valid(tokens: Seq<TokenView>) -> bool {
    forall|k: int| 0 <= k < tokens.len() ==> valid_utf8((#[trigger] tokens[k]).text)
}

/// Whether the bytes of every token of every group are valid UTF-8.
pub open spec fn groups_valid(groups: Seq<Seq<TokenView>>) -> bool {
    forall|k: int| 0 <= k < groups.len() ==> all_valid(#[trigger] groups[k])
}

/// Whether no byte is a `<`.
pub open spec fn no_lt(bytes: Seq<u8>) -> bool {
    forall|q: int| 0 <= q < bytes.len() ==> #[trigger] bytes[q] != LT
}

/// Whether a token reads as what it is: text holds no `<`, and a tag runs
/// from a `<` to the one `>` that it holds.
pub open spec fn shaped(token: TokenView) -> bool {
    if token.is_text() {
        no_lt(token.text)
    } else {
        &&& token.text.len() >= 2
        &&& token.text[0] == LT
        &&& token.text.last() == GT
        &&& forall|q: int| 1 <= q < token.text.len() - 1 ==> #[trigger] token.text[q] != GT
    }
}

/// Whether every token reads as what it is.
pub open spec fn all_shaped(tokens: Seq<TokenView>) -> bool {
    forall|k: int| 0 <= k < tokens.len() ==> shaped(#[trigger] tokens[k])
}

/// Whether every token of every group reads as what it is.
pub open spec fn groups_shaped(groups: Seq<Seq<TokenView>>) -> bool {
    forall|k: int| 0 <= k < groups.len() ==> all_shaped(#[trigger] groups[k])
}

/// One more token behind a run.
pub proof fn lemma_text_push(tokens: Seq<TokenView>, token: TokenView)
    ensures
        text_of(tokens.push(token)) == text_of(tokens) + text_part(token),
{
    assert(tokens.push(token).drop_last() =~= tokens);
}

/// The text of two runs, one behind the other.
pub proof fn lemma_text_add(a: Seq<TokenView>, b: Seq<TokenView>)
    ensures
        text_of(a + b) == text_of(a) + text_of(b),
    decreases b.len(),
{
    if b.len() > 0 {
        lemma_text_add(a, b.drop_last());
        assert((a + b).drop_last() =~= a + b.drop_last());
    }
}

/// Tags hold no text.
pub proof fn lemma_no_text(tokens: Seq<TokenView>)
    requires
        no_text(tokens),
    ensures
        text_of(tokens) == Seq::<u8>::empty(),
    decreases tokens.len(),
{
    if tokens.len() > 0 {
        assert(no_text(tokens.drop_last())) by {
            assert forall|k: int| 0 <= k < tokens.drop_last().len() implies !(
            #[trigger] tokens.drop_last()[k]).is_text() by {}
        }
        lemma_no_text(tokens.drop_last());
    }
}

/// A push adds the text of the token, whether or not it takes an open tag
/// away.
pub proof fn lemma_text_push_token(group: Seq<TokenView>, token: TokenView)
    ensures
        text_of(push_token(group, token)) == text_of(group) + text_part(token),
        all_valid(group) && valid_utf8(token.text) ==> all_valid(push_token(group, token)),
        all_shaped(group) && shaped(token) ==> all_shaped(push_token(group, token)),
{
    if token.is_close() && group.len() > 0 && group.last().is_open() {
        assert(text_of(group.drop_last()) + text_part(group.last()) =~= text_of(
            group.drop_last(),
        ));
    } else {
        lemma_text_push(group, token);
    }
}

/// The same for a push of many.
pub proof fn lemma_text_push_all(group: Seq<TokenView>, tokens: Seq<TokenView>)
    ensures
        text_of(push_all(group, tokens)) == text_of(group) + text_of(tokens),
        all_valid(group) && all_valid(tokens) ==> all_valid(push_all(group, tokens)),
        all_shaped(group) && all_shaped(tokens) ==> all_shaped(push_all(group, tokens)),
    decreases tokens.len(),
{
    if tokens.len() > 0 {
        lemma_text_push_all(group, tokens.drop_last());
        lemma_text_push_token(push_all(group, tokens.drop_last()), tokens.last());
        if all_valid(tokens) {
            assert forall|k: int| 0 <= k < tokens.drop_last().len() implies valid_utf8(
                (#[trigger] tokens.drop_last()[k]).text,
            ) by {}
        }
        if all_shaped(tokens) {
            assert forall|k: int| 0 <= k < tokens.drop_last().len() implies shaped(
                #[trigger] tokens.drop_last()[k],
            ) by {}
        }
    }
}

/// One more group behind a run of groups.
pub proof fn lemma_texts_push(groups: Seq<Seq<TokenView>>, group: Seq<TokenView>)
    ensures
        texts_of(groups.push(group)) == texts_of(groups) + text_of(group),
        groups_valid(groups) && all_valid(group) ==> groups_valid(groups.push(group)),
        groups_shaped(groups) && all_shaped(group) ==> groups_shaped(groups.push(group)),
{
    assert(groups.push(group).drop_last() =~= groups);
    if groups_shaped(groups) && all_shaped(group) {
        assert forall|k: int| 0 <= k < groups.push(group).len() implies all_shaped(
            #[trigger] groups.push(group)[k],
        ) by {}
    }
    if groups_valid(groups) && all_valid(group) {
        assert forall|k: int| 0 <= k < groups.push(group).len() implies all_valid(
            #[trigger] groups.push(group)[k],
        ) by {}
    }
}

/// The text of two runs of groups, one behind the other.
pub proof fn lemma_texts_add(a: Seq<Seq<TokenView>>, b: Seq<Seq<TokenView>>)
    ensures
        texts_of(a + b) == texts_of(a) + texts_of(b),
        groups_valid(a) && groups_valid(b) ==> groups_valid(a + b),
        groups_shaped(a) && groups_shaped(b) ==> groups_shaped(a + b),
    decreases b.len(),
{
    if groups_shaped(a) && groups_shaped(b) {
        assert forall|k: int| 0 <= k < (a + b).len() implies all_shaped(#[trigger] (a + b)[k]) by {}
    }
    if b.len() > 0 {
        lemma_texts_add(a, b.drop_last());
        assert((a + b).drop_last() =~= a + b.drop_last());
    }
    if groups_valid(a) && groups_valid(b) {
        assert forall|k: int| 0 <= k < (a + b).len() implies all_valid(#[trigger] (a + b)[k]) by {}
    }
}

/// The text from a place on is the text of the token there and the text
/// behind it.
pub proof fn lemma_text_skip(tokens: Seq<TokenView>, i: int)
    requires
        0 <= i < tokens.len(),
    ensures
        text_of(tokens.skip(i)) == text_part(tokens[i]) + text_of(tokens.skip(i + 1)),
{
    assert(tokens.skip(i) =~= seq![tokens[i]] + tokens.skip(i + 1));
    lemma_text_add(seq![tokens[i]], tokens.skip(i + 1));
    lemma_text_push(Seq::empty(), tokens[i]);
}

/// A part of a run holds tokens of the run.
pub proof fn lemma_part_holds(tokens: Seq<TokenView>, from: int, to: int)
    requires
        0 <= from <= to <= tokens.len(),
    ensures
        all_valid(tokens) ==> all_valid(tokens.subrange(from, to)),
        all_shaped(tokens) ==> all_shaped(tokens.subrange(from, to)),
{
    if all_shaped(tokens) {
        assert forall|k: int| 0 <= k < to - from implies shaped(
            #[trigger] tokens.subrange(from, to)[k],
        ) by {}
    }
    if all_valid(tokens) {
        assert forall|k: int| 0 <= k < to - from implies valid_utf8(
            (#[trigger] tokens.subrange(from, to)[k]).text,
        ) by {}
    }
}

} // verus!
