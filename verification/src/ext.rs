//! Cutting a piece off a string for a budget of bytes.

use crate::bytes::{
    boundary_at_most, byte_len, cut_at, floor_boundary, is_boundary, last_char, last_char_end,
    lemma_cut_valid, lemma_floor_at_end, lemma_floor_boundary, lemma_last_char_end,
    lemma_last_char_prefix,
};
use vstd::prelude::*;
use vstd::string::*;
use vstd::utf8::*;

verus! {

broadcast use {vstd::utf8::encode_utf8_valid_utf8, vstd::utf8::encode_utf8_decode_utf8};

/// The longest prefix of `bytes` of at most `max_len` bytes that ends on a
/// boundary; nothing when the string is not empty, the budget is positive and
/// not even the first character fits.
#[verifier::opaque]
pub open spec fn spec_utf8_substring(bytes: Seq<u8>, max_len: int) -> Option<Seq<u8>> {
    if max_len <= 0 || bytes.len() == 0 {
        Some(Seq::empty())
    } else {
        let k = floor_boundary(bytes, max_len);
        if k == 0 {
            None
        } else {
            Some(bytes.subrange(0, k))
        }
    }
}

/// The length of `bytes[..end]` once the characters after its last whitespace
/// are dropped: 0 when it holds no whitespace.
pub open spec fn trim_end(bytes: Seq<u8>, end: int) -> int {
    last_char_end(bytes, 0, end, true)
}

/// The piece of `bytes` that is cut off for a budget of `max_len` bytes: the
/// whole string when it fits; else the longest prefix within the budget that
/// ends after whitespace; else, when the budget holds no whitespace, the prefix
/// of exactly `max_len` bytes. Nothing when that last cut would fall inside a
/// character.
#[verifier::opaque]
pub open spec fn spec_split_whitespace(bytes: Seq<u8>, max_len: int) -> Option<Seq<u8>> {
    if max_len >= bytes.len() {
        Some(bytes)
    } else {
        match spec_utf8_substring(bytes, max_len) {
            None => None,
            Some(prefix) => {
                let end = trim_end(prefix, prefix.len() as int);
                if end > 0 {
                    Some(prefix.subrange(0, end))
                } else if prefix.len() == max_len {
                    Some(prefix)
                } else {
                    None
                }
            },
        }
    }
}

/// What `spec_split_whitespace` cuts off is a prefix that ends on a boundary,
/// fits the budget, and is empty only for an empty string or a budget of 0.
pub proof fn lemma_split_whitespace(bytes: Seq<u8>, max_len: int)
    requires
        valid_utf8(bytes),
        0 <= max_len,
    ensures
        match spec_split_whitespace(bytes, max_len) {
            Some(piece) => {
                &&& piece.len() <= bytes.len()
                &&& piece.len() <= max_len
                &&& piece == bytes.subrange(0, piece.len() as int)
                &&& is_boundary(bytes, piece.len() as int)
                &&& (piece.len() == 0 ==> bytes.len() == 0 || max_len == 0)
            },
            None => 0 < max_len < bytes.len(),
        },
{
    reveal(spec_split_whitespace);
    reveal(spec_utf8_substring);
    if 0 < max_len < bytes.len() {
        lemma_floor_boundary(bytes, max_len);
        let k = floor_boundary(bytes, max_len);
        if k > 0 {
            lemma_last_char_prefix(bytes, k, k, true);
            lemma_last_char_end(bytes, 0, k, true);
        }
    }
}

/// Prefixes of a string for a budget of bytes.
pub trait SplitPosExt {
    /// The piece to cut off for a budget of `max_len` bytes.
    fn split_with_respect_to_whitespace(&self, max_len: usize) -> Option<&str>;

    /// The longest prefix of at most `max_len` bytes that holds whole
    /// characters only.
    fn utf8_substring(&self, max_len: usize) -> Option<&str>;
}

impl SplitPosExt for str {
    /// The piece to cut off `self` for a budget of `max_len` bytes: a prefix
    /// that ends after whitespace where the budget holds any.
    fn split_with_respect_to_whitespace(&self, max_len: usize) -> (r: Option<&str>)
        ensures
            match r {
                Some(piece) => spec_split_whitespace(self.spec_bytes(), max_len as int) == Some(
                    piece.spec_bytes(),
                ),
                None => spec_split_whitespace(self.spec_bytes(), max_len as int) is None,
            },
    {
        proof {
            reveal(spec_split_whitespace);
            reveal(spec_utf8_substring);
        }
        if max_len >= byte_len(self) {
            return Some(self);
        }
        let prefix = match self.utf8_substring(max_len) {
            None => {
                return None;
            },
            Some(prefix) => prefix,
        };
        proof {
            if max_len > 0 {
                lemma_floor_boundary(self.spec_bytes(), max_len as int);
            }
            lemma_cut_valid(self.spec_bytes(), prefix.spec_bytes().len() as int);
        }
        let n = byte_len(prefix);
        let end = last_char(prefix, 0, n, true);
        if end > 0 {
            let (piece, _) = cut_at(prefix, end);
            return Some(piece);
        }
        if n == max_len {
            Some(prefix)
        } else {
            None
        }
    }

    /// The longest prefix of `self` of at most `max_len` bytes that holds whole
    /// characters only.
    fn utf8_substring(&self, max_len: usize) -> (r: Option<&str>)
        ensures
            match r {
                Some(prefix) => spec_utf8_substring(self.spec_bytes(), max_len as int) == Some(
                    prefix.spec_bytes(),
                ),
                None => spec_utf8_substring(self.spec_bytes(), max_len as int) is None,
            },
    {
        proof {
            reveal(spec_utf8_substring);
        }
        let n = byte_len(self);
        if max_len == 0 || n == 0 {
            let (empty, _) = cut_at(self, 0);
            return Some(empty);
        }
        let k = if max_len < n {
            boundary_at_most(self, max_len)
        } else {
            n
        };
        proof {
            if max_len >= n {
                lemma_floor_at_end(self.spec_bytes(), max_len as int);
            }
        }
        if k == 0 {
            None
        } else {
            let (prefix, _) = cut_at(self, k);
            Some(prefix)
        }
    }
}

} // verus!
