//! Tokens: a tag or a run of text, with the place in the source where it starts.

use crate::bytes::{
    byte_len, cut_at, first_char, first_char_start, last_char, last_char_end, skip_byte,
    skip_byte_back, skip_leading, skip_trailing, str_eq,
};
use vstd::prelude::*;
use vstd::string::*;
use vstd::utf8::*;

verus! {

broadcast use {vstd::utf8::encode_utf8_valid_utf8, vstd::utf8::encode_utf8_decode_utf8};

/// The three kinds of token.
pub enum TokenKind {
    OpenTag,
    CloseTag,
    Text,
}

/// A token as a value: its kind, the bytes of its slice, and the byte offset
/// of the slice in the source.
pub struct TokenView {
    pub kind: TokenKind,
    pub text: Seq<u8>,
    pub index: nat,
}

impl TokenView {
    /// The number of bytes of the slice.
    pub open spec fn len(self) -> nat {
        self.text.len()
    }

    /// The offset in the source right behind the slice.
    pub open spec fn end(self) -> nat {
        self.index + self.text.len()
    }

    /// Whether the token is an open tag.
    pub open spec fn is_open(self) -> bool {
        self.kind is OpenTag
    }

    /// Whether the token is a close tag.
    pub open spec fn is_close(self) -> bool {
        self.kind is CloseTag
    }

    /// Whether the token is text.
    pub open spec fn is_text(self) -> bool {
        self.kind is Text
    }
}

/// Where the name of a tag lies in the tag's bytes. Whitespace around the tag
/// goes, then every `<` at its start and every `>` at its end, then whitespace
/// again, then every `/` at the start; the name is the first run of
/// characters, none of them whitespace, in what is left.
#[verifier::opaque]
pub open spec fn tag_name_range(bytes: Seq<u8>) -> (int, int) {
    let n = bytes.len() as int;
    let a1 = first_char_start(bytes, 0, n, false);
    let b1 = last_char_end(bytes, a1, n, false);
    let a2 = skip_byte(bytes, a1, b1, 0x3c);
    let b2 = skip_byte_back(bytes, a2, b1, 0x3e);
    let a3 = first_char_start(bytes, a2, b2, false);
    let b3 = last_char_end(bytes, a3, b2, false);
    let a4 = skip_byte(bytes, a3, b3, 0x2f);
    let a5 = first_char_start(bytes, a4, b3, false);
    let b5 = first_char_start(bytes, a5, b3, true);
    (a5, b5)
}

/// The name of a tag: empty for text, and for a tag that holds no name.
pub open spec fn spec_tag_name(t: TokenView) -> Seq<u8> {
    if t.is_text() {
        Seq::empty()
    } else {
        t.text.subrange(tag_name_range(t.text).0, tag_name_range(t.text).1)
    }
}

/// A piece of the source: a slice of it, and the byte offset at which the
/// slice starts.
#[derive(Debug, PartialEq, Eq, Copy, Clone, Hash)]
pub enum Token<'a> {
    /// A tag that opens, from its `<` to its `>`.
    OpenTag(&'a str, usize),
    /// A tag that closes: behind its `<` comes a `/`.
    CloseTag(&'a str, usize),
    /// What lies between tags.
    Text(&'a str, usize),
}

impl<'a> View for Token<'a> {
    type V = TokenView;

    open spec fn view(&self) -> TokenView {
        match *self {
            Token::OpenTag(s, i) => TokenView {
                kind: TokenKind::OpenTag,
                text: s.spec_bytes(),
                index: i as nat,
            },
            Token::CloseTag(s, i) => TokenView {
                kind: TokenKind::CloseTag,
                text: s.spec_bytes(),
                index: i as nat,
            },
            Token::Text(s, i) => TokenView {
                kind: TokenKind::Text,
                text: s.spec_bytes(),
                index: i as nat,
            },
        }
    }
}

impl<'a> Token<'a> {
    /// The slice of the source that the token stands for.
    pub fn as_text(&self) -> (r: &'a str)
        ensures
            r.spec_bytes() == self@.text,
    {
        match self {
            Token::OpenTag(text, _) | Token::CloseTag(text, _) | Token::Text(text, _) => text,
        }
    }

    /// Whether the token is a tag of the given name.
    pub fn matches_tag_name(&self, tag: &str) -> (r: bool)
        ensures
            r == (spec_tag_name(self@) == tag.spec_bytes()),
    {
        str_eq(self.tag_name(), tag)
    }

    /// The number of bytes from the start of `start` to the end of `self`.
    pub fn len_since(&self, start: &Self) -> (n: usize)
        requires
            start@.index <= self@.end() <= usize::MAX,
        ensures
            n == self@.end() - start@.index,
    {
        self.index() + self.len() - start.index()
    }

    /// The name of the tag; empty for text and for a tag without a name.
    pub fn tag_name(&self) -> (r: &'a str)
        ensures
            r.spec_bytes() == spec_tag_name(self@),
    {
        let s = self.as_text();
        match self {
            Token::OpenTag(_, _) | Token::CloseTag(_, _) => {
                let n = byte_len(s);
                proof {
                    reveal(tag_name_range);
                }
                let a1 = first_char(s, 0, n, false);
                let b1 = last_char(s, a1, n, false);
                let a2 = skip_leading(s, a1, b1, 0x3c);
                let b2 = skip_trailing(s, a2, b1, 0x3e);
                let a3 = first_char(s, a2, b2, false);
                let b3 = last_char(s, a3, b2, false);
                let a4 = skip_leading(s, a3, b3, 0x2f);
                let a5 = first_char(s, a4, b3, false);
                let b5 = first_char(s, a5, b3, true);
                let (head, _) = cut_at(s, b5);
                let (_, name) = cut_at(head, a5);
                name
            },
            Token::Text(_, _) => {
                let (empty, _) = cut_at(s, 0);
                empty
            },
        }
    }

    /// Whether the token is a close tag.
    pub fn is_close(&self) -> (r: bool)
        ensures
            r == self@.is_close(),
    {
        matches!(self, Token::CloseTag(_, _))
    }

    /// Whether the token is an open tag.
    pub fn is_open(&self) -> (r: bool)
        ensures
            r == self@.is_open(),
    {
        matches!(self, Token::OpenTag(_, _))
    }

    /// The number of bytes of the slice.
    pub fn len(&self) -> (n: usize)
        ensures
            n == self@.len(),
    {
        byte_len(self.as_text())
    }

    /// The byte offset of the slice in the source.
    pub fn index(&self) -> (i: usize)
        ensures
            i == self@.index,
    {
        match self {
            Token::OpenTag(_, index) | Token::CloseTag(_, index) | Token::Text(_, index) => *index,
        }
    }
}

} // verus!
