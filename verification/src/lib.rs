//! Splits a string of light HTML into chunks of a bounded number of bytes.
//!
//! The source is read as tags and text. Tags that are open where a chunk ends
//! are closed there and opened again in the next chunk, so that each chunk
//! stands on its own.

use crate::assembler::{all_sourced, assemble, handed_out, spec_split, split_view, Assembler};
use crate::error::{all_wf, group_views, lemma_group_views_push, SplitError};
use crate::grouping::{
    group_start, lemma_prefix_end, lemma_prefix_start, lemma_prefix_step, lemma_prefix_underflow,
    lemma_tops_close, lemma_tops_depth, lemma_tops_last, lemma_tops_open, lemma_tops_text,
    prefix_ok, spec_groups, spec_prepare, tops,
};
use crate::source::{in_source_order, lemma_order_empty, lemma_push_order, source_end};
use crate::token::{Token, TokenView};
use crate::token_group::{
    concat_text, lemma_encode_add, lemma_push_all_push, lemma_push_token_len, lemma_views_drop_last,
    lemma_views_push, push_all, views, TokenGroup,
};
use crate::tokenizer::{lemma_first_token_len, spec_tokens, Tokenizer};
use crate::walker::{names, subdivided};
use vstd::prelude::*;
use vstd::string::*;
use vstd::utf8::*;

pub mod assembler;
pub mod bytes;
pub mod error;
pub mod ext;
pub mod grouping;
pub mod law_balance;
pub mod law_no_split;
pub mod law_round_trip;
pub mod law_size;
pub mod law_text;
pub mod law_whole;
pub mod matching;
pub mod model;
pub mod residue;
pub mod source;
pub mod stack;
pub mod strip;
pub mod subdivide;
pub mod text;
pub mod token;
pub mod token_group;
pub mod tokenizer;
pub mod walker;

verus! {

/// The bytes of the groups, one group after the other.
pub open spec fn concat_groups(groups: Seq<Seq<TokenView>>) -> Seq<u8>
    decreases groups.len(),
{
    if groups.len() == 0 {
        Seq::empty()
    } else {
        concat_groups(groups.drop_last()) + concat_text(groups.last())
    }
}

/// Cuts the tokens of a source into groups wherever no tag is open.
///
/// Most of the sources that are split here come from markup without a root
/// element: a bold title, a link, a line of text. Such a part is kept whole
/// where it fits and goes to the next chunk where it does not.
pub fn prepare_token_groups<'a>(html: &'a str) -> (r: Result<Vec<TokenGroup<'a>>, SplitError<'a>>)
    ensures
        subdivided(r) == spec_prepare(spec_tokens(html.spec_bytes(), 0)),
        match r {
            Ok(groups) => all_wf(groups@) && all_sourced(groups@, html.spec_bytes().len()),
            Err(_) => true,
        },
{
    let mut stack: Vec<Token<'a>> = Vec::new();
    let mut token_group = TokenGroup::default();
    let mut token_groups: Vec<TokenGroup<'a>> = Vec::new();
    let mut tokenizer = Tokenizer::new(html);
    let ghost all = spec_tokens(html.spec_bytes(), 0);
    let ghost end = html.spec_bytes().len();
    let ghost mut n: int = 0;
    proof {
        lemma_order_empty();
        lemma_prefix_start(all);
        assert(views(stack@) =~= Seq::<TokenView>::empty());
    }
    loop
        invariant
            all == spec_tokens(html.spec_bytes(), 0),
            end == html.spec_bytes().len(),
            tokenizer.wf(),
            tokenizer.offset() + tokenizer.rest().len() == end,
            0 <= n <= all.len(),
            spec_tokens(tokenizer.rest(), tokenizer.offset()) == all.skip(n),
            prefix_ok(all, n),
            tops(all, views(stack@), n),
            group_views(token_groups@) == spec_groups(all, n),
            token_group@ == push_all(Seq::empty(), all.subrange(group_start(all, n), n)),
            0 <= group_start(all, n) <= n,
            token_group.wf(),
            token_group.len <= tokenizer.offset(),
            in_source_order(token_group@),
            source_end(token_group@) <= tokenizer.offset(),
            all_wf(token_groups@),
            all_sourced(token_groups@, end),
        ensures
            n == all.len(),
            prefix_ok(all, n),
            tops(all, views(stack@), n),
            group_views(token_groups@) == spec_groups(all, n),
            all_wf(token_groups@),
            all_sourced(token_groups@, end),
        decreases tokenizer.rest().len(),
    {
        let ghost rest = tokenizer.rest();
        let token = match tokenizer.next() {
            None => {
                break ;
            },
            Some(token) => token,
        };
        proof {
            lemma_first_token_len(rest);
            assert(all.skip(n)[0] == token@);
            assert(all.skip(n + 1) =~= all.skip(n).skip(1));
            let start = group_start(all, n);
            assert(all.subrange(start, n + 1) =~= all.subrange(start, n).push(all[n]));
            lemma_push_all_push(Seq::empty(), all.subrange(start, n), all[n]);
            lemma_push_token_len(token_group@, token@);
            lemma_push_order(token_group@, token@);
            lemma_tops_depth(all, views(stack@), n);
        }
        token_group.push(token);
        match token {
            Token::OpenTag(_, _) => {
                proof {
                    lemma_tops_open(all, views(stack@), n);
                    lemma_views_push(stack@, token);
                    lemma_prefix_step(all, n);
                }
                stack.push(token);
            },
            Token::CloseTag(_, _) => {
                let ghost before = stack@;
                match stack.pop() {
                    None => {
                        proof {
                            lemma_prefix_underflow(all, n);
                        }
                        return Err(SplitError::UnbalancedToken(token));
                    },
                    Some(_) => {
                        proof {
                            lemma_tops_close(all, views(before), n);
                            lemma_views_drop_last(before);
                            lemma_prefix_step(all, n);
                        }
                    },
                }
            },
            Token::Text(_, _) => {
                proof {
                    lemma_tops_text(all, views(stack@), n);
                    lemma_prefix_step(all, n);
                }
            },
        }
        proof {
            lemma_tops_depth(all, views(stack@), n + 1);
        }
        if stack.len() == 0 {
            proof {
                lemma_group_views_push(token_groups@, token_group);
                lemma_order_empty();
                assert forall|k: int| 0 <= k < token_groups@.push(token_group).len() implies {
                    let g = #[trigger] token_groups@.push(token_group)[k];
                    in_source_order(g@) && source_end(g@) <= end
                } by {}
            }
            token_groups.push(token_group);
            token_group = TokenGroup::default();
        }
        proof {
            n = n + 1;
        }
    }
    proof {
        lemma_prefix_end(all);
        lemma_tops_depth(all, views(stack@), n);
    }
    let ghost before = stack@;
    match stack.pop() {
        Some(token) => {
            proof {
                lemma_tops_last(all, views(before), n);
            }
            Err(SplitError::UnbalancedToken(token))
        },
        None => Ok(token_groups),
    }
}

/// The groups as one string.
pub fn serialize_token_groups<'a>(groups: &[TokenGroup<'a>]) -> (r: String)
    ensures
        encode_utf8(r@) == concat_groups(group_views(groups@)),
{
    let mut result = String::new();
    let ghost all = group_views(groups@);
    let mut i: usize = 0;
    while i < groups.len()
        invariant
            i <= groups.len(),
            all == group_views(groups@),
            encode_utf8(result@) == concat_groups(all.take(i as int)),
        decreases groups.len() - i,
    {
        let s = groups[i].to_string();
        proof {
            lemma_encode_add(result@, s@);
            assert(all.take(i + 1).drop_last() =~= all.take(i as int));
        }
        result.append(s.as_str());
        i += 1;
    }
    proof {
        assert(all.take(groups.len() as int) =~= all);
    }
    result
}

/// Splits a source into chunks of at most `max_chunk_size` bytes.
///
/// A top-level part of the source that fits behind what a chunk holds is
/// added to it; one that does not starts a new chunk; one that is larger than
/// the budget is subdivided. What lies inside a tag whose name is in
/// `no_split` is never cut: where such a part is larger than the budget, the
/// chunks are handed out as an error.
///
/// The bound on the length of `text` is one that every string meets whose
/// length fits in `isize`.
pub fn split<'a>(text: &'a str, max_chunk_size: usize, no_split: &[&str]) -> (r: Result<
    Vec<String>,
    SplitError<'a>,
>)
    requires
        2 * text.spec_bytes().len() <= usize::MAX,
    ensures
        split_view(r) == spec_split(text.spec_bytes(), max_chunk_size as int, names(no_split@)),
{
    let groups = match prepare_token_groups(text) {
        Ok(groups) => groups,
        Err(e) => {
            return Err(e);
        },
    };
    let ghost all = group_views(groups@);
    let ghost max = max_chunk_size as int;
    let ghost nm = names(no_split@);
    let mut assembler = Assembler::new();
    let ghost target = assemble(all, max, nm, 0, assembler.state());
    let mut k: usize = 0;
    while k < groups.len()
        invariant
            k <= groups.len(),
            all == group_views(groups@),
            max == max_chunk_size,
            nm == names(no_split@),
            all_wf(groups@),
            all_sourced(groups@, text.spec_bytes().len()),
            2 * text.spec_bytes().len() <= usize::MAX,
            assembler.inv(),
            assemble(all, max, nm, k as int, assembler.state()) == target,
            spec_split(text.spec_bytes(), max, nm) == match target {
                Err(e) => Err(e),
                Ok(a) => handed_out(a),
            },
        decreases groups.len() - k,
    {
        let tg = &groups[k];
        assembler = match assembler.add_group(tg, max_chunk_size, no_split) {
            Ok(next) => next,
            Err(e) => {
                return Err(e);
            },
        };
        k += 1;
    }
    assembler.finish()
}

} // verus!
