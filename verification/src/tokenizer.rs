//! The tokenizer: a source string, read from the front one token at a time.
//!
//! A tag runs from a `<` to the first `>` behind it; what lies between tags is
//! text. A `<` that no `>` follows opens a tag that takes the rest of the
//! source: it is reported as an open tag, which nothing can close.

use crate::bytes::{
    byte_len, cut_at, first_char, first_char_start, is_boundary, lemma_char_width, tail,
};
use crate::token::{Token, TokenKind, TokenView};
use vstd::prelude::*;
use vstd::string::*;
use vstd::utf8::*;

verus! {

broadcast use {vstd::utf8::encode_utf8_valid_utf8, vstd::utf8::encode_utf8_decode_utf8};

/// The byte `<`.
pub const LT: u8 = 0x3c;

/// The byte `>`.
pub const GT: u8 = 0x3e;

/// The byte `/`.
pub const SLASH: u8 = 0x2f;

/// The first position at or after `from` that holds `byte`; the length of
/// `bytes` when none does.
pub open spec fn find_byte(bytes: Seq<u8>, from: int, byte: u8) -> int
    decreases bytes.len() - from,
{
    if from >= bytes.len() {
        bytes.len() as int
    } else if bytes[from] == byte {
        from
    } else {
        find_byte(bytes, from + 1, byte)
    }
}

/// Whether a tag closes: the first character behind its `<` that is not
/// whitespace is a `/`.
pub open spec fn is_closing(tag: Seq<u8>) -> bool {
    let k = first_char_start(tag, 1, tag.len() as int, false);
    k < tag.len() && tag[k] == SLASH
}

/// The number of bytes of the first token of a source that is not empty.
pub open spec fn first_token_len(bytes: Seq<u8>) -> int {
    let open = find_byte(bytes, 0, LT);
    let close = find_byte(bytes, 1, GT);
    if open > 0 {
        open
    } else if close < bytes.len() {
        close + 1
    } else {
        bytes.len() as int
    }
}

/// The kind of the first token of a source that is not empty.
pub open spec fn first_token_kind(bytes: Seq<u8>) -> TokenKind {
    if find_byte(bytes, 0, LT) > 0 {
        TokenKind::Text
    } else if find_byte(bytes, 1, GT) < bytes.len() && is_closing(
        bytes.subrange(0, first_token_len(bytes)),
    ) {
        TokenKind::CloseTag
    } else {
        TokenKind::OpenTag
    }
}

/// The first token of a source that is not empty and starts at `offset`.
pub open spec fn first_token(bytes: Seq<u8>, offset: nat) -> TokenView {
    TokenView {
        kind: first_token_kind(bytes),
        text: bytes.subrange(0, first_token_len(bytes)),
        index: offset,
    }
}

/// The tokens of a source that starts at `offset`.
pub open spec fn spec_tokens(bytes: Seq<u8>, offset: nat) -> Seq<TokenView>
    decreases bytes.len(),
{
    if bytes.len() == 0 {
        Seq::empty()
    } else {
        proof {
            lemma_first_token_len(bytes);
        }
        seq![first_token(bytes, offset)] + spec_tokens(
            tail(bytes, first_token_len(bytes)),
            offset + first_token_len(bytes) as nat,
        )
    }
}

/// `find_byte` finds the first place of the byte, if it has one.
pub proof fn lemma_find_byte(bytes: Seq<u8>, from: int, byte: u8)
    requires
        0 <= from,
    ensures
        from <= find_byte(bytes, from, byte) || bytes.len() < from,
        find_byte(bytes, from, byte) <= bytes.len(),
        find_byte(bytes, from, byte) < bytes.len() ==> bytes[find_byte(bytes, from, byte)]
            == byte,
        forall|q: int| from <= q < find_byte(bytes, from, byte) ==> bytes[q] != byte,
    decreases bytes.len() - from,
{
    if from < bytes.len() && bytes[from] != byte {
        lemma_find_byte(bytes, from + 1, byte);
    }
}

/// The first token of a source that is not empty takes at least one byte.
pub proof fn lemma_first_token_len(bytes: Seq<u8>)
    requires
        bytes.len() > 0,
    ensures
        1 <= first_token_len(bytes) <= bytes.len(),
{
    lemma_find_byte(bytes, 0, LT);
    lemma_find_byte(bytes, 1, GT);
}

/// In valid UTF-8 the first token ends on a boundary.
pub proof fn lemma_first_token_boundary(bytes: Seq<u8>)
    requires
        bytes.len() > 0,
        valid_utf8(bytes),
    ensures
        is_boundary(bytes, first_token_len(bytes)),
{
    lemma_find_byte(bytes, 0, LT);
    lemma_find_byte(bytes, 1, GT);
    let close = find_byte(bytes, 1, GT);
    if find_byte(bytes, 0, LT) == 0 && close < bytes.len() {
        lemma_char_width(bytes, close);
    }
}

/// Each token starts where the one before it ends, and the first one starts
/// at the offset of the source. No token is empty, and together they hold the
/// source.
pub proof fn lemma_tokens_contiguous(bytes: Seq<u8>, offset: nat)
    ensures
        spec_tokens(bytes, offset).len() > 0 ==> spec_tokens(bytes, offset)[0].index == offset,
        forall|i: int|
            0 < i < spec_tokens(bytes, offset).len() ==> (#[trigger] spec_tokens(
                bytes,
                offset,
            )[i]).index == spec_tokens(bytes, offset)[i - 1].end(),
        forall|i: int|
            0 <= i < spec_tokens(bytes, offset).len() ==> (#[trigger] spec_tokens(
                bytes,
                offset,
            )[i]).len() > 0,
        spec_tokens(bytes, offset).len() > 0 ==> spec_tokens(bytes, offset).last().end()
            == offset + bytes.len(),
        spec_tokens(bytes, offset).len() == 0 <==> bytes.len() == 0,
    decreases bytes.len(),
{
    if bytes.len() > 0 {
        lemma_first_token_len(bytes);
        let n = first_token_len(bytes);
        lemma_tokens_contiguous(tail(bytes, n), offset + n as nat);
        let all = spec_tokens(bytes, offset);
        assert forall|i: int| 0 < i < all.len() implies (#[trigger] all[i]).index == all[i
            - 1].end() by {}
        assert forall|i: int| 0 <= i < all.len() implies (#[trigger] all[i]).len() > 0 by {}
    }
}

/// The first place at or after `from` where `s` holds `byte`.
pub fn find_from(s: &str, from: usize, byte: u8) -> (k: usize)
    requires
        from <= s.spec_bytes().len(),
    ensures
        k == find_byte(s.spec_bytes(), from as int, byte),
        from <= k <= s.spec_bytes().len(),
{
    let bytes = s.as_bytes();
    let mut k = from;
    proof {
        lemma_find_byte(s.spec_bytes(), from as int, byte);
    }
    while k < bytes.len() && bytes[k] != byte
        invariant
            bytes@ == s.spec_bytes(),
            from <= k <= bytes.len(),
            find_byte(bytes@, k as int, byte) == find_byte(bytes@, from as int, byte),
        decreases bytes.len() - k,
    {
        k += 1;
    }
    k
}

/// Whether a tag, which starts with `<`, closes.
pub fn is_closing_tag(tag: &str) -> (r: bool)
    requires
        tag.spec_bytes().len() > 0,
        tag.spec_bytes()[0] == LT,
    ensures
        r == is_closing(tag.spec_bytes()),
{
    let n = byte_len(tag);
    proof {
        lemma_char_width(tag.spec_bytes(), 0);
    }
    let k = first_char(tag, 1, n, false);
    k < n && tag.as_bytes()[k] == SLASH
}

/// A source that is read token by token.
pub struct Tokenizer<'a> {
    text: &'a str,
    index: usize,
}

impl<'a> Tokenizer<'a> {
    /// The part of the source that is still to be read.
    pub closed spec fn rest(&self) -> Seq<u8> {
        self.text.spec_bytes()
    }

    /// The offset of `rest` in the source.
    pub closed spec fn offset(&self) -> nat {
        self.index as nat
    }

    /// The end of the source is an offset that fits.
    pub open spec fn wf(&self) -> bool {
        self.offset() + self.rest().len() <= usize::MAX
    }

    #[verifier::type_invariant]
    spec fn fits(&self) -> bool {
        self.index + self.text.spec_bytes().len() <= usize::MAX
    }

    /// A tokenizer at the start of `text`.
    pub fn new(text: &'a str) -> (r: Self)
        ensures
            r.rest() == text.spec_bytes(),
            r.offset() == 0,
            r.wf(),
    {
        let _ = byte_len(text);
        Self { text, index: 0 }
    }

    /// Reads the next token, if the source holds one more.
    pub fn next(&mut self) -> (r: Option<Token<'a>>)
        ensures
            old(self).wf(),
            final(self).wf(),
            old(self).rest().len() == 0 ==> r is None && final(self).rest() == old(self).rest()
                && final(self).offset() == old(self).offset(),
            old(self).rest().len() > 0 ==> r is Some && r.unwrap()@ == first_token(
                old(self).rest(),
                old(self).offset(),
            ) && final(self).rest() == tail(
                old(self).rest(),
                first_token_len(old(self).rest()),
            ) && final(self).offset() == old(self).offset() + first_token_len(old(self).rest()),
    {
        proof {
            use_type_invariant(&*self);
        }
        let text = self.text;
        let n = byte_len(text);
        if n == 0 {
            return None;
        }
        proof {
            lemma_first_token_boundary(text.spec_bytes());
            lemma_first_token_len(text.spec_bytes());
            lemma_find_byte(text.spec_bytes(), 0, LT);
        }
        let open_pos = find_from(text, 0, LT);
        let close_pos = find_from(text, 1, GT);
        let len = if open_pos > 0 {
            open_pos
        } else if close_pos < n {
            close_pos + 1
        } else {
            n
        };
        let (slice, rest) = cut_at(text, len);
        let token = if open_pos > 0 {
            Token::Text(slice, self.index)
        } else if close_pos < n && is_closing_tag(slice) {
            Token::CloseTag(slice, self.index)
        } else {
            Token::OpenTag(slice, self.index)
        };
        self.text = rest;
        self.index += len;
        Some(token)
    }
}

} // verus!
