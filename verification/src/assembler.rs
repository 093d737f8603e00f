//! Chunks: top-level groups put together as long as they fit the budget.
//!
//! A group that fits behind what the chunk holds is added to it. One that
//! does not starts a chunk of its own rather than filling the last one to the
//! brim; one that is larger than the budget is subdivided, and each of its
//! parts is a chunk.

use crate::bytes::byte_len;
use crate::error::{group_views, string_bytes, SplitError, SplitErrorView};
use crate::grouping::spec_prepare;
use crate::model::spec_subdivide;
use crate::source::{in_source_order, source_end};
use crate::token::TokenView;
use crate::token_group::{concat_text, lemma_encode_add, total_len, TokenGroup};
use crate::tokenizer::spec_tokens;
use crate::walker::{names, subdivided, sum_of};
use vstd::prelude::*;
use vstd::string::*;
use vstd::utf8::*;

verus! {

/// What the assembly of chunks carries along.
pub struct Assembly {
    /// The chunk that is being filled, as tokens.
    pub chunk: Seq<TokenView>,
    /// The chunks that are done.
    pub chunks: Seq<Seq<TokenView>>,
    /// Whether a subdivision has handed out a group over the budget.
    pub exceeded: bool,
}

/// The chunks that are done, with the one that is being filled if it holds
/// anything.
pub open spec fn flushed(a: Assembly) -> Seq<Seq<TokenView>> {
    if total_len(a.chunk) > 0 {
        a.chunks.push(a.chunk)
    } else {
        a.chunks
    }
}

/// The assembly after one more group.
#[verifier::opaque]
pub open spec fn add_group(group: Seq<TokenView>, max: int, names: Seq<Seq<u8>>, a: Assembly)
    -> Result<Assembly, SplitErrorView> {
    if total_len(a.chunk) + total_len(group) <= max {
        Ok(Assembly { chunk: a.chunk + group, chunks: a.chunks, exceeded: a.exceeded })
    } else if total_len(group) <= max {
        Ok(Assembly { chunk: Seq::empty(), chunks: flushed(a).push(group), exceeded: a.exceeded })
    } else {
        match spec_subdivide(group, max, names) {
            Ok(parts) => Ok(
                Assembly { chunk: Seq::empty(), chunks: flushed(a) + parts, exceeded: a.exceeded },
            ),
            Err(SplitErrorView::SubdividedExceedingTheLimit(parts)) => Ok(
                Assembly { chunk: Seq::empty(), chunks: flushed(a) + parts, exceeded: true },
            ),
            Err(e) => Err(e),
        }
    }
}

/// The assembly after the groups from `k` on.
pub open spec fn assemble(
    groups: Seq<Seq<TokenView>>,
    max: int,
    names: Seq<Seq<u8>>,
    k: int,
    a: Assembly,
) -> Result<Assembly, SplitErrorView>
    decreases groups.len() - k,
{
    if k < 0 || k >= groups.len() {
        Ok(a)
    } else {
        match add_group(groups[k], max, names, a) {
            Err(e) => Err(e),
            Ok(next) => assemble(groups, max, names, k + 1, next),
        }
    }
}

/// The chunks of a source as tokens, with the mark of a group over the
/// budget.
pub open spec fn spec_chunks(text: Seq<u8>, max: int, names: Seq<Seq<u8>>) -> Result<
    Assembly,
    SplitErrorView,
> {
    match spec_prepare(spec_tokens(text, 0)) {
        Err(e) => Err(e),
        Ok(groups) => assemble(
            groups,
            max,
            names,
            0,
            Assembly { chunk: Seq::empty(), chunks: Seq::empty(), exceeded: false },
        ),
    }
}

/// The chunks as bytes.
pub open spec fn chunk_texts(chunks: Seq<Seq<TokenView>>) -> Seq<Seq<u8>> {
    chunks.map_values(|c: Seq<TokenView>| concat_text(c))
}

/// What the assembly hands out at its end: the chunks, as an error where a
/// group over the budget is among them.
pub open spec fn handed_out(a: Assembly) -> Result<Seq<Seq<u8>>, SplitErrorView> {
    if a.exceeded {
        Err(SplitErrorView::SplitExceededTheLimit(chunk_texts(flushed(a))))
    } else {
        Ok(chunk_texts(flushed(a)))
    }
}

/// The chunks of a source: strings of at most `max` bytes each, or the error
/// that stopped the work.
pub open spec fn spec_split(text: Seq<u8>, max: int, names: Seq<Seq<u8>>) -> Result<
    Seq<Seq<u8>>,
    SplitErrorView,
> {
    match spec_chunks(text, max, names) {
        Err(e) => Err(e),
        Ok(a) => handed_out(a),
    }
}

/// What `split` returns, as a value.
pub open spec fn split_view<'a>(r: Result<Vec<String>, SplitError<'a>>) -> Result<
    Seq<Seq<u8>>,
    SplitErrorView,
> {
    match r {
        Ok(chunks) => Ok(string_bytes(chunks@)),
        Err(e) => Err(e@),
    }
}

/// Whether every group lies in the order of a source of `end` bytes.
pub open spec fn all_sourced<'a>(groups: Seq<TokenGroup<'a>>, end: nat) -> bool {
    forall|k: int|
        0 <= k < groups.len() ==> in_source_order((#[trigger] groups[k])@) && source_end(
            groups[k]@,
        ) <= end
}

/// The bytes of two runs of tokens, one after the other.
pub proof fn lemma_concat_text_add(a: Seq<TokenView>, b: Seq<TokenView>)
    ensures
        concat_text(a + b) == concat_text(a) + concat_text(b),
    decreases b.len(),
{
    if b.len() > 0 {
        lemma_concat_text_add(a, b.drop_last());
        assert((a + b).drop_last() =~= a + b.drop_last());
    }
}

/// A run of tokens reads as many bytes as it takes.
pub proof fn lemma_concat_text_len(tokens: Seq<TokenView>)
    ensures
        concat_text(tokens).len() == total_len(tokens),
    decreases tokens.len(),
{
    if tokens.len() > 0 {
        lemma_concat_text_len(tokens.drop_last());
    }
}

/// One more string in a vector of strings.
pub proof fn lemma_string_bytes_push(strings: Seq<String>, s: String)
    ensures
        string_bytes(strings.push(s)) == string_bytes(strings).push(encode_utf8(s@)),
{
}

/// One more chunk in a run of chunks.
pub proof fn lemma_chunk_texts_push(chunks: Seq<Seq<TokenView>>, c: Seq<TokenView>)
    ensures
        chunk_texts(chunks.push(c)) == chunk_texts(chunks).push(concat_text(c)),
{
}

/// The chunks in the making.
pub(crate) struct Assembler {
    chunks: Vec<String>,
    chunk: String,
    has_exceeded: bool,
    tokens: Ghost<Assembly>,
}

impl Assembler {
    /// The assembler as a value.
    pub(crate) closed spec fn state(&self) -> Assembly {
        self.tokens@
    }

    /// The strings hold what the tokens read as.
    pub(crate) closed spec fn inv(&self) -> bool {
        &&& encode_utf8(self.chunk@) == concat_text(self.tokens@.chunk)
        &&& string_bytes(self.chunks@) == chunk_texts(self.tokens@.chunks)
        &&& self.has_exceeded == self.tokens@.exceeded
    }

    /// An assembler that holds nothing.
    pub(crate) fn new() -> (r: Self)
        ensures
            r.inv(),
            r.state() == (Assembly {
                chunk: Seq::empty(),
                chunks: Seq::empty(),
                exceeded: false,
            }),
    {
        let r = Assembler {
            chunks: Vec::new(),
            chunk: String::new(),
            has_exceeded: false,
            tokens: Ghost(
                Assembly { chunk: Seq::empty(), chunks: Seq::empty(), exceeded: false },
            ),
        };
        proof {
            assert(string_bytes(r.chunks@) =~= chunk_texts(r.tokens@.chunks));
        }
        r
    }

    /// Puts the chunk that is being filled with those that are done, if it
    /// holds anything, and starts a new one.
    fn flush(self) -> (r: Self)
        requires
            self.inv(),
        ensures
            r.inv(),
            r.state() == (Assembly {
                chunk: Seq::empty(),
                chunks: flushed(self.state()),
                exceeded: self.state().exceeded,
            }),
    {
        let Assembler { chunks, chunk, has_exceeded, tokens } = self;
        let mut chunks = chunks;
        proof {
            lemma_concat_text_len(tokens@.chunk);
            lemma_string_bytes_push(chunks@, chunk);
            lemma_chunk_texts_push(tokens@.chunks, tokens@.chunk);
        }
        if byte_len(chunk.as_str()) > 0 {
            chunks.push(chunk);
        }
        let r = Assembler {
            chunks,
            chunk: String::new(),
            has_exceeded,
            tokens: Ghost(
                Assembly {
                    chunk: Seq::empty(),
                    chunks: flushed(tokens@),
                    exceeded: tokens@.exceeded,
                },
            ),
        };
        r
    }

    /// Makes a chunk of its own of each group.
    fn push_groups<'a>(self, groups: &Vec<TokenGroup<'a>>) -> (r: Self)
        requires
            self.inv(),
        ensures
            r.inv(),
            r.state() == (Assembly {
                chunk: self.state().chunk,
                chunks: self.state().chunks + group_views(groups@),
                exceeded: self.state().exceeded,
            }),
    {
        let ghost start = self.tokens@;
        let ghost parts = group_views(groups@);
        let mut r = self;
        let mut i: usize = 0;
        while i < groups.len()
            invariant
                i <= groups.len(),
                parts == group_views(groups@),
                r.inv(),
                r.tokens@ == (Assembly {
                    chunk: start.chunk,
                    chunks: start.chunks + parts.take(i as int),
                    exceeded: start.exceeded,
                }),
            decreases groups.len() - i,
        {
            let s = groups[i].to_string();
            proof {
                lemma_string_bytes_push(r.chunks@, s);
                lemma_chunk_texts_push(r.tokens@.chunks, parts[i as int]);
                assert(start.chunks + parts.take(i + 1) =~= (start.chunks + parts.take(
                    i as int,
                )).push(parts[i as int]));
            }
            r.chunks.push(s);
            proof {
                r.tokens@ = Assembly {
                    chunk: start.chunk,
                    chunks: start.chunks + parts.take(i + 1),
                    exceeded: start.exceeded,
                };
            }
            i += 1;
        }
        proof {
            assert(parts.take(groups.len() as int) =~= parts);
        }
        r
    }

    /// Takes one more group: into the chunk that is being filled, as a chunk
    /// of its own, or subdivided.
    pub(crate) fn add_group<'a>(self, tg: &TokenGroup<'a>, max_chunk_size: usize, no_split: &[&str]) -> (r:
        Result<Self, SplitError<'a>>)
        requires
            self.inv(),
            tg.wf(),
            in_source_order(tg@),
            2 * source_end(tg@) <= usize::MAX,
        ensures
            match r {
                Ok(next) => next.inv() && add_group(
                    tg@,
                    max_chunk_size as int,
                    names(no_split@),
                    self.state(),
                ) == Ok::<Assembly, SplitErrorView>(next.state()),
                Err(e) => add_group(tg@, max_chunk_size as int, names(no_split@), self.state())
                    == Err::<Assembly, SplitErrorView>(e@),
            },
    {
        proof {
            reveal(add_group);
            lemma_concat_text_len(self.tokens@.chunk);
        }
        let chunk_len = byte_len(self.chunk.as_str());
        if sum_of(chunk_len, tg.len, 0, 0) <= max_chunk_size as u128 {
            let mut r = self;
            let s = tg.to_string();
            proof {
                lemma_encode_add(r.chunk@, s@);
                lemma_concat_text_add(r.tokens@.chunk, tg@);
            }
            r.chunk.append(s.as_str());
            proof {
                r.tokens@ = Assembly {
                    chunk: r.tokens@.chunk + tg@,
                    chunks: r.tokens@.chunks,
                    exceeded: r.tokens@.exceeded,
                };
            }
            return Ok(r);
        }
        if tg.len <= max_chunk_size {
            let mut r = self.flush();
            let s = tg.to_string();
            proof {
                lemma_string_bytes_push(r.chunks@, s);
                lemma_chunk_texts_push(r.tokens@.chunks, tg@);
            }
            r.chunks.push(s);
            proof {
                r.tokens@ = Assembly {
                    chunk: r.tokens@.chunk,
                    chunks: r.tokens@.chunks.push(tg@),
                    exceeded: r.tokens@.exceeded,
                };
            }
            return Ok(r);
        }
        let r = self.flush();
        match tg.subdivide(max_chunk_size, no_split) {
            Ok(tgs) => Ok(r.push_groups(&tgs)),
            Err(SplitError::SubdividedExceedingTheLimit(tgs)) => {
                let mut r = r.push_groups(&tgs);
                r.has_exceeded = true;
                proof {
                    r.tokens@ = Assembly {
                        chunk: r.tokens@.chunk,
                        chunks: r.tokens@.chunks,
                        exceeded: true,
                    };
                }
                Ok(r)
            },
            Err(err) => Err(err),
        }
    }

    /// Hands the chunks out.
    pub(crate) fn finish<'a>(self) -> (r: Result<Vec<String>, SplitError<'a>>)
        requires
            self.inv(),
        ensures
            split_view(r) == handed_out(self.state()),
    {
        let r = self.flush();
        if r.has_exceeded {
            Err(SplitError::SplitExceededTheLimit(r.chunks))
        } else {
            Ok(r.chunks)
        }
    }
}

} // verus!
