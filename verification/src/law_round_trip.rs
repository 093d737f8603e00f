//! A source and its chunks hold the same text.

use crate::assembler::{
    add_group, assemble, chunk_texts, flushed, spec_chunks, spec_split, Assembly,
};
use crate::error::SplitErrorView;
use crate::grouping::{group_start, spec_groups, spec_prepare};
use crate::law_text::lemma_subdivide_keeps_text;
use crate::matching::{depth, never_underflows};
use crate::model::{lemma_walk_errors, spec_subdivide};
use crate::strip::{
    join, lemma_last_is_closed, lemma_strip_chunks, lemma_strip_tokens, lemma_tokens_hold_source,
    strip_tags,
};
use crate::text::{
    all_shaped, all_valid, groups_shaped, groups_valid, lemma_part_holds, lemma_text_add,
    lemma_text_push_all, lemma_texts_add, lemma_texts_push, text_of, texts_of,
};
use crate::token::TokenView;
use crate::token_group::{push_all, total_len};
use crate::tokenizer::spec_tokens;
use vstd::prelude::*;
use vstd::utf8::*;

verus! {

/// Whether the tokens of every group are valid UTF-8 and read as what they
/// are.
pub open spec fn groups_sound(groups: Seq<Seq<TokenView>>) -> bool {
    groups_valid(groups) && groups_shaped(groups)
}

/// The top-level groups that end among the first `n` tokens hold the text of
/// the tokens up to the end of the last of them.
proof fn lemma_groups_text(tokens: Seq<TokenView>, n: int)
    requires
        0 <= n <= tokens.len(),
    ensures
        0 <= group_start(tokens, n) <= n,
        texts_of(spec_groups(tokens, n)) == text_of(tokens.subrange(0, group_start(tokens, n))),
        all_valid(tokens) ==> groups_valid(spec_groups(tokens, n)),
        all_shaped(tokens) ==> groups_shaped(spec_groups(tokens, n)),
    decreases n,
{
    if n > 0 {
        lemma_groups_text(tokens, n - 1);
        if depth(tokens, n) == 0 {
            let start = group_start(tokens, n - 1);
            let part = tokens.subrange(start, n);
            let group = push_all(Seq::empty(), part);
            lemma_part_holds(tokens, start, n);
            lemma_text_push_all(Seq::empty(), part);
            lemma_texts_push(spec_groups(tokens, n - 1), group);
            lemma_text_add(tokens.subrange(0, start), part);
            assert(tokens.subrange(0, start) + part =~= tokens.subrange(0, n));
        }
    }
}

/// What an assembly holds of the text of the groups.
pub open spec fn assembled(a: Assembly) -> Seq<u8> {
    texts_of(a.chunks) + text_of(a.chunk)
}

/// Whether what an assembly holds is valid UTF-8 and reads as what it is.
pub open spec fn assembly_sound(a: Assembly) -> bool {
    &&& all_valid(a.chunk)
    &&& all_shaped(a.chunk)
    &&& groups_sound(a.chunks)
}

/// The chunks of an assembly hold what the assembly holds.
proof fn lemma_flushed_text(a: Assembly)
    requires
        assembly_sound(a),
    ensures
        texts_of(flushed(a)) == assembled(a),
        groups_sound(flushed(a)),
{
    lemma_texts_push(a.chunks, a.chunk);
    if total_len(a.chunk) == 0 {
        lemma_no_bytes_no_text(a.chunk);
    }
}

/// Tokens that take no bytes hold no text.
proof fn lemma_no_bytes_no_text(tokens: Seq<TokenView>)
    requires
        total_len(tokens) == 0,
    ensures
        text_of(tokens) == Seq::<u8>::empty(),
    decreases tokens.len(),
{
    if tokens.len() > 0 {
        lemma_no_bytes_no_text(tokens.drop_last());
    }
}

/// One more group adds its text to what an assembly holds.
proof fn lemma_add_group_text(group: Seq<TokenView>, max: int, names: Seq<Seq<u8>>, a: Assembly)
    requires
        assembly_sound(a),
        all_valid(group),
        all_shaped(group),
    ensures
        match add_group(group, max, names, a) {
            Ok(next) => assembly_sound(next) && assembled(next) == assembled(a) + text_of(group),
            Err(_) => true,
        },
{
    reveal(add_group);
    lemma_flushed_text(a);
    let done = flushed(a);
    if total_len(a.chunk) + total_len(group) <= max {
        lemma_text_add(a.chunk, group);
        assert(texts_of(a.chunks) + (text_of(a.chunk) + text_of(group)) =~= assembled(a)
            + text_of(group));
        assert(all_valid(a.chunk + group)) by {
            assert forall|k: int| 0 <= k < (a.chunk + group).len() implies valid_utf8(
                (#[trigger] (a.chunk + group)[k]).text,
            ) by {}
        }
        assert(all_shaped(a.chunk + group)) by {
            assert forall|k: int| 0 <= k < (a.chunk + group).len() implies crate::text::shaped(
                #[trigger] (a.chunk + group)[k],
            ) by {}
        }
    } else if total_len(group) <= max {
        lemma_texts_push(done, group);
        assert(texts_of(done.push(group)) + text_of(Seq::<TokenView>::empty()) =~= assembled(a)
            + text_of(group));
    } else {
        lemma_subdivide_keeps_text(group, max, names);
        match spec_subdivide(group, max, names) {
            Ok(parts) => {
                lemma_texts_add(done, parts);
                assert(texts_of(done + parts) + text_of(Seq::<TokenView>::empty()) =~= assembled(
                    a,
                ) + text_of(group));
            },
            Err(SplitErrorView::SubdividedExceedingTheLimit(parts)) => {
                lemma_texts_add(done, parts);
                assert(texts_of(done + parts) + text_of(Seq::<TokenView>::empty()) =~= assembled(
                    a,
                ) + text_of(group));
            },
            Err(_) => {},
        }
    }
}

/// All groups add theirs.
proof fn lemma_assemble_text(
    groups: Seq<Seq<TokenView>>,
    max: int,
    names: Seq<Seq<u8>>,
    k: int,
    a: Assembly,
)
    requires
        0 <= k <= groups.len(),
        assembly_sound(a),
        groups_sound(groups),
    ensures
        match assemble(groups, max, names, k, a) {
            Ok(last) => assembly_sound(last) && assembled(last) == assembled(a) + texts_of(
                groups.skip(k),
            ),
            Err(_) => true,
        },
    decreases groups.len() - k,
{
    if k < groups.len() {
        lemma_add_group_text(groups[k], max, names, a);
        match add_group(groups[k], max, names, a) {
            Ok(next) => {
                lemma_assemble_text(groups, max, names, k + 1, next);
                assert(groups.skip(k) =~= seq![groups[k]] + groups.skip(k + 1));
                lemma_texts_add(seq![groups[k]], groups.skip(k + 1));
                lemma_texts_push(Seq::empty(), groups[k]);
            },
            Err(_) => {},
        }
    }
}

/// The chunks of a split, as tokens, hold the text of the tokens of the
/// source, byte for byte and in its order. Every token of theirs is valid
/// UTF-8 and reads as what it is.
pub proof fn lemma_split_keeps_text(text: Seq<u8>, max: int, names: Seq<Seq<u8>>)
    requires
        valid_utf8(text),
    ensures
        match spec_chunks(text, max, names) {
            Ok(a) => texts_of(flushed(a)) == text_of(spec_tokens(text, 0)) && groups_sound(
                flushed(a),
            ) && all_shaped(spec_tokens(text, 0)),
            Err(_) => true,
        },
{
    let tokens = spec_tokens(text, 0);
    let n = tokens.len() as int;
    match spec_prepare(tokens) {
        Ok(groups) => {
            lemma_tokens_hold_source(text, 0);
            assert(depth(tokens, n) == 0) by {
                reveal(never_underflows);
            }
            if n > 0 {
                lemma_last_is_closed(tokens);
            }
            lemma_groups_text(tokens, n);
            assert(tokens.subrange(0, n) =~= tokens);
            let start = Assembly { chunk: Seq::empty(), chunks: Seq::empty(), exceeded: false };
            lemma_assemble_text(groups, max, names, 0, start);
            assert(groups.skip(0) =~= groups);
            match assemble(groups, max, names, 0, start) {
                Ok(a) => lemma_flushed_text(a),
                Err(_) => {},
            }
        },
        Err(_) => {},
    }
}

/// Tokens of valid UTF-8 read as valid UTF-8.
proof fn lemma_concat_valid(tokens: Seq<TokenView>)
    requires
        all_valid(tokens),
    ensures
        valid_utf8(crate::token_group::concat_text(tokens)),
    decreases tokens.len(),
{
    if tokens.len() > 0 {
        assert(all_valid(tokens.drop_last())) by {
            assert forall|k: int| 0 <= k < tokens.drop_last().len() implies valid_utf8(
                (#[trigger] tokens.drop_last()[k]).text,
            ) by {}
        }
        lemma_concat_valid(tokens.drop_last());
        valid_utf8_concat(
            crate::token_group::concat_text(tokens.drop_last()),
            tokens.last().text,
        );
    }
}

/// UTF-8: every chunk of a split is valid UTF-8, whether the chunks come as a
/// result or with the error for a chunk over the budget.
pub proof fn lemma_split_chunks_are_utf8(text: Seq<u8>, max: int, names: Seq<Seq<u8>>)
    requires
        valid_utf8(text),
    ensures
        match spec_split(text, max, names) {
            Ok(chunks) => forall|k: int| 0 <= k < chunks.len() ==> valid_utf8(#[trigger] chunks[k]),
            Err(SplitErrorView::SplitExceededTheLimit(chunks)) => forall|k: int|
                0 <= k < chunks.len() ==> valid_utf8(#[trigger] chunks[k]),
            Err(_) => true,
        },
{
    lemma_split_keeps_text(text, max, names);
    match spec_chunks(text, max, names) {
        Ok(a) => {
            let chunks = chunk_texts(flushed(a));
            assert forall|k: int| 0 <= k < chunks.len() implies valid_utf8(
                #[trigger] chunks[k],
            ) by {
                lemma_concat_valid(flushed(a)[k]);
            }
        },
        Err(_) => {
            lemma_no_exceeded_before_the_end(text, max, names);
        },
    }
}

/// Round trip: the chunks of a split, read one after the other and without
/// their tags, are the source without its tags. This holds of the chunks that
/// come as a result and of those that come with the error for a chunk over
/// the budget.
pub proof fn lemma_split_round_trip(text: Seq<u8>, max: int, names: Seq<Seq<u8>>)
    requires
        valid_utf8(text),
    ensures
        match spec_split(text, max, names) {
            Ok(chunks) => strip_tags(join(chunks)) == strip_tags(text),
            Err(SplitErrorView::SplitExceededTheLimit(chunks)) => strip_tags(join(chunks))
                == strip_tags(text),
            Err(_) => true,
        },
{
    lemma_split_keeps_text(text, max, names);
    match spec_chunks(text, max, names) {
        Ok(a) => {
            let tokens = spec_tokens(text, 0);
            lemma_tokens_hold_source(text, 0);
            lemma_strip_tokens(tokens, Seq::empty());
            lemma_strip_chunks(flushed(a), Seq::empty());
        },
        Err(_) => {
            lemma_no_exceeded_before_the_end(text, max, names);
        },
    }
}

/// The error for a chunk over the budget comes at the end of the assembly and
/// nowhere before.
proof fn lemma_no_exceeded_before_the_end(text: Seq<u8>, max: int, names: Seq<Seq<u8>>)
    ensures
        !(spec_chunks(text, max, names) matches Err(SplitErrorView::SplitExceededTheLimit(_))),
{
    match spec_prepare(spec_tokens(text, 0)) {
        Ok(groups) => {
            let start = Assembly { chunk: Seq::empty(), chunks: Seq::empty(), exceeded: false };
            lemma_assemble_error(groups, max, names, 0, start);
        },
        Err(_) => {},
    }
}

/// No group brings that error.
proof fn lemma_assemble_error(
    groups: Seq<Seq<TokenView>>,
    max: int,
    names: Seq<Seq<u8>>,
    k: int,
    a: Assembly,
)
    ensures
        !(assemble(groups, max, names, k, a) matches Err(
            SplitErrorView::SplitExceededTheLimit(_),
        )),
    decreases groups.len() - k,
{
    if 0 <= k < groups.len() {
        reveal(add_group);
        lemma_walk_errors(
            groups[k],
            max,
            names,
            crate::model::SubState { stack: Seq::empty(), cur: Seq::empty(), out: Seq::empty() },
            0,
        );
        match add_group(groups[k], max, names, a) {
            Ok(next) => lemma_assemble_error(groups, max, names, k + 1, next),
            Err(_) => {},
        }
    }
}

} // verus!
