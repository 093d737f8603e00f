//! No chunk is larger than the budget.

use crate::assembler::{
    add_group, assemble, chunk_texts, flushed, lemma_concat_text_len, spec_chunks, spec_split,
    Assembly,
};
use crate::model::{finish, lemma_step_advances, spec_subdivide, step, walk_from, SubState};
use crate::token::TokenView;
use crate::token_group::total_len;
use vstd::prelude::*;

verus! {

/// Whether every group is within the budget.
pub open spec fn all_fit(groups: Seq<Seq<TokenView>>, max: int) -> bool {
    forall|k: int| 0 <= k < groups.len() ==> total_len(#[trigger] groups[k]) <= max
}

/// Whether the chunks of an assembly are within the budget, as long as no
/// subdivision has handed out a group over it.
pub open spec fn assembly_fits(a: Assembly, max: int) -> bool {
    total_len(a.chunk) <= max && (!a.exceeded ==> all_fit(a.chunks, max))
}

/// A walk that comes to a good end leaves groups within the budget.
pub proof fn lemma_walk_fits(
    tokens: Seq<TokenView>,
    max: int,
    names: Seq<Seq<u8>>,
    st: SubState,
    i: int,
)
    ensures
        match walk_from(tokens, max, names, st, i) {
            Ok(groups) => all_fit(groups, max),
            Err(_) => true,
        },
    decreases tokens.len() - i,
{
    if i < 0 || i >= tokens.len() {
        reveal(finish);
    } else {
        match step(tokens, max, names, st, i) {
            Err(_) => {},
            Ok(walk) => {
                lemma_step_advances(tokens, max, names, st, i);
                lemma_walk_fits(tokens, max, names, walk.state, walk.next);
            },
        }
    }
}

/// The groups that a subdivision returns are within the budget.
pub proof fn lemma_subdivide_size_bound(tokens: Seq<TokenView>, max: int, names: Seq<Seq<u8>>)
    ensures
        match spec_subdivide(tokens, max, names) {
            Ok(groups) => all_fit(groups, max),
            Err(_) => true,
        },
{
    lemma_walk_fits(
        tokens,
        max,
        names,
        SubState { stack: Seq::empty(), cur: Seq::empty(), out: Seq::empty() },
        0,
    );
}

/// The chunks of an assembly that fits fit.
proof fn lemma_flushed_fits(a: Assembly, max: int)
    requires
        assembly_fits(a, max),
        !a.exceeded,
    ensures
        all_fit(flushed(a), max),
{
    assert forall|k: int| 0 <= k < flushed(a).len() implies total_len(#[trigger] flushed(a)[k])
        <= max by {}
}

/// One more group keeps an assembly within the budget.
proof fn lemma_add_group_fits(group: Seq<TokenView>, max: int, names: Seq<Seq<u8>>, a: Assembly)
    requires
        0 <= max,
        assembly_fits(a, max),
    ensures
        match add_group(group, max, names, a) {
            Ok(next) => assembly_fits(next, max),
            Err(_) => true,
        },
{
    reveal(add_group);
    crate::token_group::lemma_total_len_add(a.chunk, group);
    if !a.exceeded {
        lemma_flushed_fits(a, max);
        let done = flushed(a);
        if total_len(a.chunk) + total_len(group) > max {
            if total_len(group) <= max {
                assert forall|k: int| 0 <= k < done.push(group).len() implies total_len(
                    #[trigger] done.push(group)[k],
                ) <= max by {}
            } else {
                lemma_subdivide_size_bound(group, max, names);
                match spec_subdivide(group, max, names) {
                    Ok(parts) => {
                        assert forall|k: int| 0 <= k < (done + parts).len() implies total_len(
                            #[trigger] (done + parts)[k],
                        ) <= max by {}
                    },
                    Err(_) => {},
                }
            }
        }
    }
}

/// So do all groups.
proof fn lemma_assemble_fits(
    groups: Seq<Seq<TokenView>>,
    max: int,
    names: Seq<Seq<u8>>,
    k: int,
    a: Assembly,
)
    requires
        0 <= max,
        assembly_fits(a, max),
    ensures
        match assemble(groups, max, names, k, a) {
            Ok(last) => assembly_fits(last, max),
            Err(_) => true,
        },
    decreases groups.len() - k,
{
    if 0 <= k < groups.len() {
        lemma_add_group_fits(groups[k], max, names, a);
        match add_group(groups[k], max, names, a) {
            Ok(next) => lemma_assemble_fits(groups, max, names, k + 1, next),
            Err(_) => {},
        }
    }
}

/// Size bound: where `split` returns chunks, none of them has more than `max`
/// bytes.
pub proof fn lemma_split_size_bound(text: Seq<u8>, max: int, names: Seq<Seq<u8>>)
    requires
        0 <= max,
    ensures
        match spec_split(text, max, names) {
            Ok(chunks) => forall|k: int| 0 <= k < chunks.len() ==> (#[trigger] chunks[k]).len()
                <= max,
            Err(_) => true,
        },
{
    match spec_chunks(text, max, names) {
        Err(_) => {},
        Ok(a) => {
            let start = Assembly { chunk: Seq::empty(), chunks: Seq::empty(), exceeded: false };
            match crate::grouping::spec_prepare(crate::tokenizer::spec_tokens(text, 0)) {
                Ok(groups) => {
                    lemma_assemble_fits(groups, max, names, 0, start);
                },
                Err(_) => {},
            }
            if !a.exceeded {
                lemma_flushed_fits(a, max);
                let chunks = chunk_texts(flushed(a));
                assert forall|k: int| 0 <= k < chunks.len() implies (#[trigger] chunks[k]).len()
                    <= max by {
                    lemma_concat_text_len(flushed(a)[k]);
                }
            }
        },
    }
}

} // verus!
