//! A source without its tags.

use crate::assembler::{chunk_texts, lemma_concat_text_add};
use crate::bytes::{lemma_cut_valid, tail};
use crate::matching::{depth, never_underflows};
use crate::text::{
    all_shaped, all_valid, groups_shaped, no_lt, shaped, text_of, text_part, texts_of,
};
use crate::token::TokenView;
use crate::token_group::concat_text;
use crate::tokenizer::{
    find_byte, first_token, first_token_len, lemma_find_byte, lemma_first_token_boundary,
    lemma_first_token_len, spec_tokens, GT, LT,
};
use vstd::prelude::*;
use vstd::utf8::*;

verus! {

/// The bytes of a source that lie outside its tags. A tag runs from a `<` to
/// the next `>`; one that no `>` ends takes the rest of the source.
pub open spec fn strip_tags(bytes: Seq<u8>) -> Seq<u8>
    decreases bytes.len(),
{
    if bytes.len() == 0 {
        Seq::empty()
    } else if bytes[0] != LT {
        seq![bytes[0]] + strip_tags(bytes.skip(1))
    } else if find_byte(bytes, 1, GT) < bytes.len() {
        proof {
            lemma_find_byte(bytes, 1, GT);
        }
        strip_tags(bytes.skip(find_byte(bytes, 1, GT) + 1))
    } else {
        Seq::empty()
    }
}

/// The chunks, one after the other.
pub open spec fn join(chunks: Seq<Seq<u8>>) -> Seq<u8>
    decreases chunks.len(),
{
    if chunks.len() == 0 {
        Seq::empty()
    } else {
        join(chunks.drop_last()) + chunks.last()
    }
}

/// The first place of a byte, once it is known.
pub proof fn lemma_find_byte_at(bytes: Seq<u8>, from: int, byte: u8, place: int)
    requires
        0 <= from <= place < bytes.len(),
        bytes[place] == byte,
        forall|q: int| from <= q < place ==> bytes[q] != byte,
    ensures
        find_byte(bytes, from, byte) == place,
    decreases place - from,
{
    if from < place {
        lemma_find_byte_at(bytes, from + 1, byte, place);
    }
}

/// Text before a source stays as it is.
pub proof fn lemma_strip_text(text: Seq<u8>, behind: Seq<u8>)
    requires
        no_lt(text),
    ensures
        strip_tags(text + behind) == text + strip_tags(behind),
    decreases text.len(),
{
    if text.len() > 0 {
        let all = text + behind;
        assert(all.skip(1) =~= text.skip(1) + behind);
        assert(no_lt(text.skip(1))) by {
            assert forall|q: int| 0 <= q < text.skip(1).len() implies #[trigger] text.skip(1)[q]
                != LT by {}
        }
        lemma_strip_text(text.skip(1), behind);
    }
}

/// A tag before a source goes.
pub proof fn lemma_strip_tag(tag: TokenView, behind: Seq<u8>)
    requires
        !tag.is_text(),
        shaped(tag),
    ensures
        strip_tags(tag.text + behind) == strip_tags(behind),
{
    let all = tag.text + behind;
    let last = tag.text.len() - 1;
    assert forall|q: int| 1 <= q < last implies all[q] != GT by {}
    lemma_find_byte_at(all, 1, GT, last);
    assert(all.skip(last + 1) =~= behind);
}

/// The tokens of a run before a source leave their text.
pub proof fn lemma_strip_tokens(tokens: Seq<TokenView>, behind: Seq<u8>)
    requires
        all_shaped(tokens),
    ensures
        strip_tags(concat_text(tokens) + behind) == text_of(tokens) + strip_tags(behind),
    decreases tokens.len(),
{
    if tokens.len() > 0 {
        let before = tokens.drop_last();
        let t = tokens.last();
        assert(all_shaped(before)) by {
            assert forall|k: int| 0 <= k < before.len() implies shaped(#[trigger] before[k]) by {}
        }
        lemma_strip_tokens(before, t.text + behind);
        assert(concat_text(tokens) + behind =~= concat_text(before) + (t.text + behind));
        if t.is_text() {
            lemma_strip_text(t.text, behind);
        } else {
            lemma_strip_tag(t, behind);
        }
        assert(text_of(before) + (text_part(t) + strip_tags(behind)) =~= text_of(tokens)
            + strip_tags(behind));
    }
}

/// The chunks of a run before a source leave their text.
pub proof fn lemma_strip_chunks(chunks: Seq<Seq<TokenView>>, behind: Seq<u8>)
    requires
        groups_shaped(chunks),
    ensures
        strip_tags(join(chunk_texts(chunks)) + behind) == texts_of(chunks) + strip_tags(behind),
    decreases chunks.len(),
{
    if chunks.len() > 0 {
        let before = chunks.drop_last();
        let c = chunks.last();
        assert(groups_shaped(before)) by {
            assert forall|k: int| 0 <= k < before.len() implies all_shaped(
                #[trigger] before[k],
            ) by {}
        }
        assert(chunk_texts(chunks).drop_last() =~= chunk_texts(before));
        lemma_strip_chunks(before, concat_text(c) + behind);
        assert(join(chunk_texts(chunks)) + behind =~= join(chunk_texts(before)) + (concat_text(c)
            + behind));
        lemma_strip_tokens(c, behind);
        assert(texts_of(before) + (text_of(c) + strip_tags(behind)) =~= texts_of(chunks)
            + strip_tags(behind));
    }
}

/// The tokens of a source hold the source: read one after the other they are
/// the source again, each of them is valid UTF-8 if the source is, and each of
/// them reads as what it is, but for an open tag at the end that no `>` ends.
pub proof fn lemma_tokens_hold_source(bytes: Seq<u8>, offset: nat)
    ensures
        concat_text(spec_tokens(bytes, offset)) == bytes,
        valid_utf8(bytes) ==> all_valid(spec_tokens(bytes, offset)),
        forall|k: int|
            0 <= k < spec_tokens(bytes, offset).len() ==> shaped(
                #[trigger] spec_tokens(bytes, offset)[k],
            ) || (k == spec_tokens(bytes, offset).len() - 1 && spec_tokens(
                bytes,
                offset,
            )[k].is_open()),
    decreases bytes.len(),
{
    let all = spec_tokens(bytes, offset);
    if bytes.len() > 0 {
        lemma_first_token_len(bytes);
        let n = first_token_len(bytes);
        let first = first_token(bytes, offset);
        let rest = spec_tokens(tail(bytes, n), offset + n as nat);
        lemma_tokens_hold_source(tail(bytes, n), offset + n as nat);
        lemma_concat_text_add(seq![first], rest);
        assert(seq![first].drop_last() =~= Seq::<TokenView>::empty());
        assert(concat_text(Seq::<TokenView>::empty()) =~= Seq::<u8>::empty());
        if valid_utf8(bytes) {
            lemma_first_token_boundary(bytes);
            lemma_cut_valid(bytes, n);
            assert forall|k: int| 0 <= k < all.len() implies valid_utf8(
                (#[trigger] all[k]).text,
            ) by {}
        }
        lemma_find_byte(bytes, 0, LT);
        lemma_find_byte(bytes, 1, GT);
        assert forall|k: int| 0 <= k < all.len() implies shaped(#[trigger] all[k]) || (k
            == all.len() - 1 && all[k].is_open()) by {
            if k == 0 {
                if find_byte(bytes, 0, LT) > 0 {
                    assert forall|q: int| 0 <= q < first.text.len() implies #[trigger] first.text[q]
                        != LT by {}
                } else if find_byte(bytes, 1, GT) < bytes.len() {
                    assert forall|q: int| 1 <= q < first.text.len() - 1 implies #[trigger] first.text[q]
                        != GT by {}
                }
            }
        }
    }
}

/// In a run of tokens that leaves no tag open the last token is no open tag.
pub proof fn lemma_last_is_closed(tokens: Seq<TokenView>)
    requires
        never_underflows(tokens),
        depth(tokens, tokens.len() as int) == 0,
        tokens.len() > 0,
    ensures
        !tokens.last().is_open(),
{
    reveal(never_underflows);
    assert(depth(tokens, tokens.len() - 1) >= 0);
}

} // verus!
