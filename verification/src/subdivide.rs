//! Subdivision: one group that is too large becomes several that fit.

use crate::error::{all_wf, error_wf, SplitError, SplitErrorView};
use crate::matching::{never_underflows, OpenCloseMap};
use crate::model::{spec_subdivide, step_open, walk_from, Walk};
use crate::source::{in_source_order, source_end, start_of};
use crate::token::Token;
use crate::token_group::TokenGroup;
use crate::walker::{names, subdivided, Walker};
use vstd::prelude::*;

verus! {

impl<'a> Walker<'a> {
    /// Walks over the open tag at `index`.
    pub(crate) fn take_open(
        self,
        group: &TokenGroup<'a>,
        index: usize,
        map: &OpenCloseMap,
        max_chunk_size: usize,
        no_split: &[&str],
    ) -> (r: Result<(Self, usize), SplitError<'a>>)
        requires
            group.wf(),
            in_source_order(group@),
            2 * source_end(group@) <= usize::MAX,
            map.matches(group@),
            index < group@.len(),
            group@[index as int].is_open(),
            self.inv(group@, index as int, start_of(group@, index as int)),
        ensures
            match r {
                Ok((w, next)) => {
                    &&& step_open(
                        group@,
                        max_chunk_size as int,
                        names(no_split@),
                        self.state(),
                        index as int,
                    ) == Ok::<Walk, SplitErrorView>(Walk { state: w.state(), next: next as int })
                    &&& w.inv(group@, next as int, start_of(group@, next as int))
                    &&& index < next <= group@.len()
                },
                Err(e) => step_open(
                    group@,
                    max_chunk_size as int,
                    names(no_split@),
                    self.state(),
                    index as int,
                ) == Err::<Walk, SplitErrorView>(e@) && error_wf(e),
            },
    {
        let ghost tokens = group@;
        let ghost i = index as int;
        let token = group.tokens[index];
        proof {
            reveal(step_open);
        }
        let close_index = match group.get_close_token_index(index, map) {
            Ok(j) => j,
            Err(e) => {
                return Err(e);
            },
        };
        assert(close_index < group.tokens.len());
        let close_token = group.tokens[close_index];
        if self.must_eject(token, close_token, max_chunk_size, no_split, Ghost(tokens), Ghost(i)) {
            let w = self.eject(group, index, close_index, max_chunk_size);
            Ok((w, close_index + 1))
        } else if self.must_cut(token, close_token, max_chunk_size, Ghost(tokens), Ghost(i)) {
            if self.holds_open_tags_only() {
                return Err(
                    SplitError::SubdivisionImpossible(self.into_group(Ghost(tokens), Ghost(i))),
                );
            }
            let w = self.flush(Ghost(tokens), Ghost(i), Ghost(start_of(tokens, i)));
            let w = w.enter(token, close_token, Ghost(tokens), Ghost(i));
            Ok((w, index + 1))
        } else {
            let w = self.enter(token, close_token, Ghost(tokens), Ghost(i));
            Ok((w, index + 1))
        }
    }
}

impl<'a> TokenGroup<'a> {
    /// Cuts the group into groups of at most `max_chunk_size` bytes. The tags
    /// that are open where a group ends are closed there and opened again in
    /// the next group; text is cut after whitespace where it has any. What
    /// lies inside a tag whose name is in `no_split` stays in one group, which
    /// may then be larger than the budget: the groups are then handed out as
    /// an error.
    pub fn subdivide(&self, max_chunk_size: usize, no_split: &[&str]) -> (r: Result<
        Vec<TokenGroup<'a>>,
        SplitError<'a>,
    >)
        requires
            self.wf(),
            in_source_order(self@),
            2 * source_end(self@) <= usize::MAX,
        ensures
            subdivided(r) == spec_subdivide(self@, max_chunk_size as int, names(no_split@)),
            match r {
                Ok(groups) => all_wf(groups@),
                Err(e) => error_wf(e),
            },
    {
        if max_chunk_size == 0 {
            return Err(SplitError::InvalidLen(max_chunk_size));
        }
        let map = match self.prepare_open_close_map() {
            Ok(map) => map,
            Err(e) => {
                return Err(e);
            },
        };
        let ghost tokens = self@;
        let ghost max = max_chunk_size as int;
        let ghost nm = names(no_split@);
        let ghost target = spec_subdivide(tokens, max, nm);
        let n = self.tokens.len();
        let mut walker = Walker::new(Ghost(tokens));
        let mut index: usize = 0;
        while index < n
            invariant
                self.wf(),
                tokens == self@,
                n == tokens.len(),
                in_source_order(tokens),
                2 * source_end(tokens) <= usize::MAX,
                max == max_chunk_size,
                nm == names(no_split@),
                map.matches(tokens),
                never_underflows(tokens),
                index <= n,
                walker.inv(tokens, index as int, start_of(tokens, index as int)),
                walk_from(tokens, max, nm, walker.state(), index as int) == target,
                target == spec_subdivide(self@, max_chunk_size as int, names(no_split@)),
            decreases n - index,
        {
            let token = self.tokens[index];
            let ghost i = index as int;
            match token {
                Token::OpenTag(_, _) => {
                    match walker.take_open(self, index, &map, max_chunk_size, no_split) {
                        Ok((w, next)) => {
                            walker = w;
                            index = next;
                        },
                        Err(e) => {
                            return Err(e);
                        },
                    }
                },
                Token::CloseTag(_, _) => {
                    walker = walker.take_close(token, Ghost(tokens), Ghost(i));
                    index += 1;
                },
                Token::Text(_, _) => {
                    match walker.take_text(token, max_chunk_size, Ghost(tokens), Ghost(i)) {
                        Ok(w) => {
                            walker = w;
                            index += 1;
                        },
                        Err(e) => {
                            return Err(e);
                        },
                    }
                },
            }
        }
        walker.finish(max_chunk_size, Ghost(tokens))
    }
}

} // verus!
