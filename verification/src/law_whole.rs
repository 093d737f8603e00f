//! With a budget as large as the source there is one chunk.

use crate::assembler::{
    add_group, assemble, chunk_texts, flushed, lemma_concat_text_len, spec_split, Assembly,
};
use crate::error::SplitErrorView;
use crate::grouping::{group_start, spec_groups, spec_prepare};
use crate::matching::{depth, never_underflows};
use crate::strip::lemma_tokens_hold_source;
use crate::token::TokenView;
use crate::token_group::{
    concat_text, lemma_push_all_len, lemma_total_len_add, no_empty_tag, push_all, total_len,
};
use crate::tokenizer::spec_tokens;
use vstd::prelude::*;

verus! {

/// The tokens of the groups, one group after the other.
pub open spec fn flat(groups: Seq<Seq<TokenView>>) -> Seq<TokenView>
    decreases groups.len(),
{
    if groups.len() == 0 {
        Seq::empty()
    } else {
        flat(groups.drop_last()) + groups.last()
    }
}

/// The one chunk for a budget as large as the source: all groups, if they
/// hold anything.
pub open spec fn whole(groups: Seq<Seq<TokenView>>) -> Seq<Seq<u8>> {
    if total_len(flat(groups)) > 0 {
        seq![concat_text(flat(groups))]
    } else {
        Seq::empty()
    }
}

/// One more group behind the tokens of groups.
proof fn lemma_flat_push(groups: Seq<Seq<TokenView>>, group: Seq<TokenView>)
    ensures
        flat(groups.push(group)) == flat(groups) + group,
{
    assert(groups.push(group).drop_last() =~= groups);
}

/// The groups that end among the first `n` tokens take no more bytes than
/// the tokens up to the end of the last of them.
proof fn lemma_groups_len(tokens: Seq<TokenView>, n: int)
    requires
        0 <= n <= tokens.len(),
    ensures
        0 <= group_start(tokens, n) <= n,
        total_len(flat(spec_groups(tokens, n))) <= total_len(
            tokens.subrange(0, group_start(tokens, n)),
        ),
    decreases n,
{
    if n > 0 {
        lemma_groups_len(tokens, n - 1);
        if depth(tokens, n) == 0 {
            let start = group_start(tokens, n - 1);
            let part = tokens.subrange(start, n);
            let group = push_all(Seq::empty(), part);
            lemma_flat_push(spec_groups(tokens, n - 1), group);
            lemma_total_len_add(flat(spec_groups(tokens, n - 1)), group);
            lemma_push_all_len(Seq::empty(), part);
            lemma_total_len_add(tokens.subrange(0, start), part);
            assert(tokens.subrange(0, start) + part =~= tokens.subrange(0, n));
        }
    }
}

/// The first groups take no more bytes than all of them.
proof fn lemma_flat_take_len(groups: Seq<Seq<TokenView>>, k: int)
    requires
        0 <= k <= groups.len(),
    ensures
        total_len(flat(groups.take(k))) <= total_len(flat(groups)),
    decreases groups.len() - k,
{
    if k < groups.len() {
        lemma_flat_take_len(groups, k + 1);
        assert(groups.take(k + 1) =~= groups.take(k).push(groups[k]));
        lemma_flat_push(groups.take(k), groups[k]);
        lemma_total_len_add(flat(groups.take(k)), groups[k]);
    } else {
        assert(groups.take(k) =~= groups);
    }
}

/// Where all groups fit the budget together, they are put into one chunk.
proof fn lemma_assemble_whole(
    groups: Seq<Seq<TokenView>>,
    max: int,
    names: Seq<Seq<u8>>,
    k: int,
)
    requires
        0 <= k <= groups.len(),
        total_len(flat(groups)) <= max,
    ensures
        assemble(
            groups,
            max,
            names,
            k,
            Assembly { chunk: flat(groups.take(k)), chunks: Seq::empty(), exceeded: false },
        ) == Ok::<Assembly, SplitErrorView>(
            Assembly { chunk: flat(groups), chunks: Seq::empty(), exceeded: false },
        ),
    decreases groups.len() - k,
{
    if k < groups.len() {
        reveal(add_group);
        lemma_flat_take_len(groups, k + 1);
        assert(groups.take(k + 1) =~= groups.take(k).push(groups[k]));
        lemma_flat_push(groups.take(k), groups[k]);
        lemma_total_len_add(flat(groups.take(k)), groups[k]);
        lemma_assemble_whole(groups, max, names, k + 1);
    } else {
        assert(groups.take(k) =~= groups);
    }
}

/// Without an open tag that is closed at once, a push of many takes them all.
proof fn lemma_push_all_keeps(tokens: Seq<TokenView>)
    requires
        no_empty_tag(tokens),
    ensures
        push_all(Seq::empty(), tokens) == tokens,
    decreases tokens.len(),
{
    if tokens.len() > 0 {
        let before = tokens.drop_last();
        assert(no_empty_tag(before)) by {
            assert forall|k: int| 0 <= k < before.len() - 1 implies !((
            #[trigger] before[k]).is_open() && before[k + 1].is_close()) by {}
        }
        lemma_push_all_keeps(before);
    }
}

/// Without an open tag that is closed at once, the groups hold all tokens up
/// to the end of the last group.
proof fn lemma_groups_keep(tokens: Seq<TokenView>, n: int)
    requires
        0 <= n <= tokens.len(),
        no_empty_tag(tokens),
    ensures
        0 <= group_start(tokens, n) <= n,
        flat(spec_groups(tokens, n)) == tokens.subrange(0, group_start(tokens, n)),
    decreases n,
{
    if n > 0 {
        lemma_groups_keep(tokens, n - 1);
        if depth(tokens, n) == 0 {
            let start = group_start(tokens, n - 1);
            let part = tokens.subrange(start, n);
            assert(no_empty_tag(part)) by {
                assert forall|k: int| 0 <= k < part.len() - 1 implies !((
                #[trigger] part[k]).is_open() && part[k + 1].is_close()) by {}
            }
            lemma_push_all_keeps(part);
            lemma_flat_push(spec_groups(tokens, n - 1), part);
        }
    }
}

/// One chunk for a large budget: where the budget is at least the number of
/// bytes of a source whose tags are in balance, `split` returns one chunk
/// that holds all groups, or none if they hold nothing. Without an open tag
/// that is closed at once, that chunk is the source.
pub proof fn lemma_split_large_budget(text: Seq<u8>, max: int, names: Seq<Seq<u8>>)
    requires
        max >= text.len(),
        spec_prepare(spec_tokens(text, 0)) is Ok,
    ensures
        spec_split(text, max, names) == Ok::<Seq<Seq<u8>>, SplitErrorView>(
            whole(spec_prepare(spec_tokens(text, 0))->Ok_0),
        ),
        no_empty_tag(spec_tokens(text, 0)) && text.len() > 0 ==> spec_split(text, max, names)
            == Ok::<Seq<Seq<u8>>, SplitErrorView>(seq![text]),
{
    let tokens = spec_tokens(text, 0);
    let n = tokens.len() as int;
    let groups = spec_prepare(tokens)->Ok_0;
    assert(depth(tokens, n) == 0) by {
        reveal(never_underflows);
    }
    assert(tokens.subrange(0, n) =~= tokens);
    lemma_groups_len(tokens, n);
    lemma_tokens_hold_source(text, 0);
    lemma_concat_text_len(tokens);
    lemma_assemble_whole(groups, max, names, 0);
    let a = Assembly { chunk: flat(groups), chunks: Seq::empty(), exceeded: false };
    assert(chunk_texts(flushed(a)) =~= whole(groups));
    if no_empty_tag(tokens) && text.len() > 0 {
        lemma_groups_keep(tokens, n);
    }
}

} // verus!
