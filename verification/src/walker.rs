//! The walk over a group, one token at a time.

use crate::bytes::{byte_len, is_boundary, str_eq};
use crate::error::{
    all_wf, error_wf, group_views, lemma_group_views_push, SplitError, SplitErrorView,
};
use crate::ext::{lemma_split_whitespace, SplitPosExt};
use crate::matching::{close_of, has_close, never_underflows};
use crate::model::{
    cut_once, cut_text, eject, emit, enter, finish, future_close_len, last_out, must_cut,
    must_eject, stack_closes, stack_opens, step_close, step_text, Cut, SubState, Walk,
};
use crate::source::{in_source_order, lemma_start_of, source_end, start_of};
use crate::stack::{
    lemma_stack_len, lemma_stack_not_empty, lemma_stack_order, lemma_stack_pop, lemma_stack_push,
    lemma_stack_skip, lemma_stack_start, lemma_stack_text, lemma_wrap_len, stack_inv,
};
use crate::token::{Token, TokenView};
use crate::token_group::{
    lemma_push_all_len, lemma_push_token_len, lemma_total_len_push, lemma_total_len_reverse,
    lemma_views_drop_last, lemma_views_push, none_empty, push_all, total_len, views, TokenGroup,
};
use vstd::prelude::*;
use vstd::string::*;
use vstd::utf8::*;

verus! {

/// The names of a list as bytes.
pub open spec fn names(no_split: Seq<&str>) -> Seq<Seq<u8>> {
    no_split.map_values(|s: &str| s.spec_bytes())
}

/// What `subdivide` returns, as a value.
pub open spec fn subdivided<'a>(r: Result<Vec<TokenGroup<'a>>, SplitError<'a>>) -> Result<
    Seq<Seq<TokenView>>,
    SplitErrorView,
> {
    match r {
        Ok(groups) => Ok(group_views(groups@)),
        Err(e) => Err(e@),
    }
}

/// The sum of four lengths, in a type that holds it.
pub fn sum_of(a: usize, b: usize, c: usize, d: usize) -> (s: u128)
    ensures
        s == a + b + c + d,
{
    a as u128 + b as u128 + c as u128 + d as u128
}

/// Whether a list of names holds `name`.
pub fn contains_name(no_split: &[&str], name: &str) -> (r: bool)
    ensures
        r == names(no_split@).contains(name.spec_bytes()),
{
    let mut i: usize = 0;
    while i < no_split.len()
        invariant
            i <= no_split.len(),
            forall|k: int| 0 <= k < i ==> names(no_split@)[k] != name.spec_bytes(),
        decreases no_split.len() - i,
    {
        if str_eq(no_split[i], name) {
            assert(names(no_split@)[i as int] == name.spec_bytes());
            return true;
        }
        i += 1;
    }
    false
}

/// The place where a walker stands is one of the group, and the source does
/// not end before it.
pub proof fn lemma_stack_bounds(tokens: Seq<TokenView>, stack: Seq<int>, i: int)
    requires
        in_source_order(tokens),
        stack_inv(tokens, stack, i),
    ensures
        0 <= i <= tokens.len(),
        start_of(tokens, i) <= source_end(tokens),
{
    lemma_stack_order(tokens, stack, i);
    if i < tokens.len() {
        lemma_start_of(tokens, i, tokens.len() as int);
    }
}

/// What a walk over a group carries along.
pub(crate) struct Walker<'a> {
    /// The open tags that are not closed yet.
    stack: Vec<Token<'a>>,
    /// The close tags that they are waiting for, in the same order.
    closes: Vec<Token<'a>>,
    /// The bytes that those close tags take.
    future_close_len: usize,
    /// The group that is being filled.
    tg: TokenGroup<'a>,
    /// The groups that are done.
    token_groups: Vec<TokenGroup<'a>>,
    /// The places of the open tags in the group that is walked over.
    places: Ghost<Seq<int>>,
}

impl<'a> Walker<'a> {
    /// The walker as a value.
    pub(crate) closed spec fn state(&self) -> SubState {
        SubState { stack: self.places@, cur: self.tg@, out: group_views(self.token_groups@) }
    }

    /// The walker stands before the token at `i` of `tokens`, and has read the
    /// source up to `pos`.
    pub(crate) closed spec fn inv(&self, tokens: Seq<TokenView>, i: int, pos: nat) -> bool {
        &&& stack_inv(tokens, self.places@, i)
        &&& views(self.stack@) == stack_opens(tokens, self.places@)
        &&& views(self.closes@) == stack_closes(tokens, self.places@)
        &&& self.future_close_len == total_len(views(self.closes@))
        &&& self.tg.wf()
        &&& all_wf(self.token_groups@)
        &&& self.tg.len <= source_end(tokens) + pos
    }

    /// A walker before the first token.
    pub(crate) fn new(Ghost(tokens): Ghost<Seq<TokenView>>) -> (w: Self)
        ensures
            w.inv(tokens, 0, start_of(tokens, 0)),
            w.state() == (SubState { stack: Seq::empty(), cur: Seq::empty(), out: Seq::empty() }),
    {
        let w = Walker {
            stack: Vec::new(),
            closes: Vec::new(),
            future_close_len: 0,
            tg: TokenGroup::default(),
            token_groups: Vec::new(),
            places: Ghost(Seq::empty()),
        };
        proof {
            lemma_stack_start(tokens);
            assert(views(w.stack@) =~= stack_opens(tokens, w.places@));
            assert(views(w.closes@) =~= stack_closes(tokens, w.places@));
            assert(group_views(w.token_groups@) =~= Seq::<Seq<TokenView>>::empty());
        }
        w
    }

    /// Closes the group that is being filled, puts it with those that are
    /// done, and starts a new one with the same tags open.
    pub(crate) fn flush(self, Ghost(tokens): Ghost<Seq<TokenView>>, Ghost(i): Ghost<int>, Ghost(pos): Ghost<
        nat,
    >) -> (w: Self)
        requires
            self.inv(tokens, i, pos),
            in_source_order(tokens),
            none_empty(tokens),
            2 * source_end(tokens) <= usize::MAX,
            pos <= start_of(tokens, i) || (0 <= i < tokens.len() && !tokens[i].is_close() && pos
                <= tokens[i].end()),
        ensures
            w.state() == emit(tokens, self.state()),
            w.inv(tokens, i, 0),
            w.inv(tokens, i, start_of(tokens, i)),
            total_len(w.state().cur) <= start_of(tokens, i),
    {
        let Walker { stack, closes, future_close_len, tg, token_groups, places } = self;
        let mut tg = tg;
        let mut token_groups = token_groups;
        proof {
            lemma_stack_len(tokens, places@, i);
            lemma_stack_bounds(tokens, places@, i);
            lemma_total_len_reverse(stack_closes(tokens, places@));
        }
        tg.close_from_stack(closes.as_slice());
        proof {
            lemma_group_views_push(token_groups@, tg);
        }
        token_groups.push(tg);
        let fresh = TokenGroup::new_from_stack(stack.as_slice());
        proof {
            lemma_push_all_len(Seq::empty(), stack_opens(tokens, places@));
        }
        Walker { stack, closes, future_close_len, tg: fresh, token_groups, places }
    }

    /// Gives the part from the open tag at `index` to its close tag a group
    /// of its own.
    pub(crate) fn eject(
        self,
        group: &TokenGroup<'a>,
        index: usize,
        close_index: usize,
        max_chunk_size: usize,
    ) -> (w: Self)
        requires
            group.wf(),
            in_source_order(group@),
            2 * source_end(group@) <= usize::MAX,
            index < group@.len(),
            group@[index as int].is_open(),
            has_close(group@, index as int),
            close_index == close_of(group@, index as int),
            self.inv(group@, index as int, start_of(group@, index as int)),
        ensures
            eject(group@, max_chunk_size as int, self.state(), index as int) == (Walk {
                state: w.state(),
                next: close_index + 1,
            }),
            w.inv(group@, close_index + 1, start_of(group@, close_index + 1)),
            index < close_index < group@.len(),
    {
        let ghost tokens = group@;
        let ghost i = index as int;
        let ghost j = close_index as int;
        let ghost places = self.places@;
        proof {
            reveal(eject);
            lemma_stack_len(tokens, places, i);
            lemma_stack_bounds(tokens, places, i);
            lemma_stack_skip(tokens, places, i);
            lemma_wrap_len(tokens, places, i);
            lemma_stack_bounds(tokens, places, j + 1);
            lemma_start_of(tokens, i, j + 1);
        }
        let mut w = self.flush(Ghost(tokens), Ghost(i), Ghost(start_of(tokens, i)));
        assert(close_index < group.tokens.len());
        let wrap = group.wrap(index..close_index + 1, w.stack.as_slice(), w.closes.as_slice());
        proof {
            let opened = push_all(Seq::empty(), stack_opens(tokens, places));
            let inner = tokens.subrange(i, j + 1);
            lemma_push_all_len(Seq::empty(), stack_opens(tokens, places));
            lemma_push_all_len(opened, inner);
            lemma_push_all_len(push_all(opened, inner), stack_closes(tokens, places).reverse());
            lemma_total_len_reverse(stack_closes(tokens, places));
        }
        if wrap.len + w.future_close_len >= max_chunk_size {
            proof {
                lemma_group_views_push(w.token_groups@, wrap);
            }
            w.token_groups.push(wrap);
        } else {
            w.tg = wrap;
        }
        w
    }

    /// Takes the open tag `token`, which stands at `i`, into the group and
    /// onto the stack.
    pub(crate) fn enter(
        self,
        token: Token<'a>,
        close_token: Token<'a>,
        Ghost(tokens): Ghost<Seq<TokenView>>,
        Ghost(i): Ghost<int>,
    ) -> (w: Self)
        requires
            in_source_order(tokens),
            none_empty(tokens),
            2 * source_end(tokens) <= usize::MAX,
            0 <= i < tokens.len(),
            tokens[i] == token@,
            token@.is_open(),
            has_close(tokens, i),
            tokens[close_of(tokens, i)] == close_token@,
            self.inv(tokens, i, start_of(tokens, i)),
        ensures
            enter(tokens, self.state(), i) == (Walk { state: w.state(), next: i + 1 }),
            w.inv(tokens, i + 1, start_of(tokens, i + 1)),
    {
        let mut w = self;
        proof {
            lemma_stack_len(tokens, w.places@, i);
            lemma_stack_bounds(tokens, w.places@, i);
            lemma_start_of(tokens, i, i + 1);
            lemma_stack_push(tokens, w.places@, i);
            lemma_stack_len(tokens, w.places@.push(i), i + 1);
            lemma_views_push(w.stack@, token);
            lemma_views_push(w.closes@, close_token);
            lemma_total_len_push(views(w.closes@), close_token@);
            lemma_push_token_len(w.tg@, token@);
            assert(stack_opens(tokens, w.places@).push(token@) =~= stack_opens(
                tokens,
                w.places@.push(i),
            ));
            assert(stack_closes(tokens, w.places@).push(close_token@) =~= stack_closes(
                tokens,
                w.places@.push(i),
            ));
        }
        w.future_close_len += close_token.len();
        w.tg.push(token);
        w.stack.push(token);
        w.closes.push(close_token);
        proof {
            w.places@ = w.places@.push(i);
        }
        w
    }

    /// Whether the part that `token` opens is not to be split and does not
    /// fit behind what the group holds.
    pub(crate) fn must_eject(
        &self,
        token: Token<'a>,
        close_token: Token<'a>,
        max_chunk_size: usize,
        no_split: &[&str],
        Ghost(tokens): Ghost<Seq<TokenView>>,
        Ghost(i): Ghost<int>,
    ) -> (r: bool)
        requires
            in_source_order(tokens),
            2 * source_end(tokens) <= usize::MAX,
            0 <= i < tokens.len(),
            tokens[i] == token@,
            token@.is_open(),
            has_close(tokens, i),
            tokens[close_of(tokens, i)] == close_token@,
            self.inv(tokens, i, start_of(tokens, i)),
        ensures
            r == must_eject(tokens, max_chunk_size as int, names(no_split@), self.state(), i),
    {
        proof {
            lemma_stack_skip(tokens, self.places@, i);
            lemma_wrap_len(tokens, self.places@, i);
        }
        let span = close_token.len_since(&token);
        contains_name(no_split, token.tag_name()) && sum_of(
            self.tg.len,
            self.future_close_len,
            span,
            0,
        ) > max_chunk_size as u128
    }

    /// Whether, with `token` and the tag that closes it, the group could not
    /// be closed within the budget.
    pub(crate) fn must_cut(
        &self,
        token: Token<'a>,
        close_token: Token<'a>,
        max_chunk_size: usize,
        Ghost(tokens): Ghost<Seq<TokenView>>,
        Ghost(i): Ghost<int>,
    ) -> (r: bool)
        requires
            0 <= i < tokens.len(),
            tokens[i] == token@,
            tokens[close_of(tokens, i)] == close_token@,
            self.inv(tokens, i, start_of(tokens, i)),
        ensures
            r == must_cut(tokens, max_chunk_size as int, self.state(), i),
    {
        sum_of(self.tg.len, token.len(), close_token.len(), self.future_close_len)
            >= max_chunk_size as u128
    }

    /// Whether the group that is being filled holds open tags only.
    pub(crate) fn holds_open_tags_only(&self) -> (r: bool)
        ensures
            r == crate::token_group::all_open(self.state().cur),
    {
        self.tg.is_all_open()
    }

    /// The group that is being filled.
    pub(crate) fn into_group(self, Ghost(tokens): Ghost<Seq<TokenView>>, Ghost(i): Ghost<int>) -> (r:
        TokenGroup<'a>)
        requires
            self.inv(tokens, i, start_of(tokens, i)),
        ensures
            r@ == self.state().cur,
            r.wf(),
    {
        self.tg
    }

    /// Walks over the close tag `token`, which stands at `i`.
    pub(crate) fn take_close(self, token: Token<'a>, Ghost(tokens): Ghost<Seq<TokenView>>, Ghost(i): Ghost<
        int,
    >) -> (w: Self)
        requires
            in_source_order(tokens),
            none_empty(tokens),
            never_underflows(tokens),
            2 * source_end(tokens) <= usize::MAX,
            0 <= i < tokens.len(),
            tokens[i] == token@,
            token@.is_close(),
            self.inv(tokens, i, start_of(tokens, i)),
        ensures
            step_close(tokens, self.state(), i) == (Walk { state: w.state(), next: i + 1 }),
            w.inv(tokens, i + 1, start_of(tokens, i + 1)),
    {
        let mut w = self;
        proof {
            lemma_stack_len(tokens, w.places@, i);
            lemma_stack_bounds(tokens, w.places@, i);
            lemma_start_of(tokens, i, i + 1);
            lemma_stack_not_empty(tokens, w.places@, i);
            lemma_stack_pop(tokens, w.places@, i);
            lemma_push_token_len(w.tg@, token@);
            lemma_views_drop_last(w.stack@);
            lemma_views_drop_last(w.closes@);
            assert(stack_opens(tokens, w.places@).drop_last() =~= stack_opens(
                tokens,
                w.places@.drop_last(),
            ));
            assert(stack_closes(tokens, w.places@).drop_last() =~= stack_closes(
                tokens,
                w.places@.drop_last(),
            ));
        }
        w.tg.push(token);
        w.stack.pop();
        let close_token = w.closes.pop().unwrap();
        w.future_close_len -= close_token.len();
        proof {
            w.places@ = w.places@.drop_last();
        }
        w
    }

    /// Cuts one piece off `text`, which is what is left of the text `token`
    /// at `i` and starts at `start` in the source.
    fn cut_once(
        self,
        token: Token<'a>,
        text: &'a str,
        start: usize,
        max_chunk_size: usize,
        Ghost(tokens): Ghost<Seq<TokenView>>,
        Ghost(i): Ghost<int>,
    ) -> (r: Result<(Self, usize), SplitError<'a>>)
        requires
            in_source_order(tokens),
            none_empty(tokens),
            2 * source_end(tokens) <= usize::MAX,
            0 <= i < tokens.len(),
            tokens[i] == token@,
            token@.is_text(),
            text.spec_bytes().len() > 0,
            start + text.spec_bytes().len() == token@.end(),
            self.inv(tokens, i, start as nat),
        ensures
            match r {
                Ok((w, taken)) => {
                    &&& cut_once(
                        tokens,
                        max_chunk_size as int,
                        self.state(),
                        token@,
                        text.spec_bytes(),
                        start as nat,
                    ) == Ok::<Cut, SplitErrorView>(Cut { state: w.state(), taken: taken as nat })
                    &&& 0 < taken <= text.spec_bytes().len()
                    &&& is_boundary(text.spec_bytes(), taken as int)
                    &&& w.inv(tokens, i, 0)
                    &&& w.tg.len <= start_of(tokens, i)
                    &&& w.state().stack == self.state().stack
                },
                Err(e) => cut_once(
                    tokens,
                    max_chunk_size as int,
                    self.state(),
                    token@,
                    text.spec_bytes(),
                    start as nat,
                ) == Err::<Cut, SplitErrorView>(e@) && error_wf(e),
            },
    {
        let ghost rest = text.spec_bytes();
        proof {
            reveal(cut_once);
            lemma_stack_len(tokens, self.places@, i);
            lemma_stack_bounds(tokens, self.places@, i);
        }
        let mut w = self;
        if w.future_close_len + w.tg.len > max_chunk_size {
            return Err(SplitError::SubdivisionImpossible(w.tg));
        }
        let mut available_len = max_chunk_size - w.future_close_len - w.tg.len;
        if available_len == 0 {
            w = w.flush(Ghost(tokens), Ghost(i), Ghost(start as nat));
            if w.future_close_len + w.tg.len >= max_chunk_size {
                return Err(SplitError::SubdivisionImpossible(w.tg));
            }
            available_len = max_chunk_size - w.future_close_len - w.tg.len;
        }
        let can_fit_segment = match text.split_with_respect_to_whitespace(available_len) {
            Some(segment) => segment,
            None => {
                return Err(SplitError::SubdivisionImpossibleUnicode(token));
            },
        };
        proof {
            vstd::utf8::encode_utf8_valid_utf8(text@);
            lemma_split_whitespace(rest, available_len as int);
        }
        let taken = byte_len(can_fit_segment);
        let segment = Token::Text(can_fit_segment, start);
        proof {
            lemma_push_token_len(w.tg@, segment@);
        }
        w.tg.push(segment);
        let w = w.flush(Ghost(tokens), Ghost(i), Ghost((start + taken) as nat));
        Ok((w, taken))
    }

    /// Cuts the text `token`, which stands at `i` and does not fit, into
    /// pieces that do.
    fn take_long_text(
        self,
        token: Token<'a>,
        max_chunk_size: usize,
        Ghost(tokens): Ghost<Seq<TokenView>>,
        Ghost(i): Ghost<int>,
    ) -> (r: Result<Self, SplitError<'a>>)
        requires
            in_source_order(tokens),
            none_empty(tokens),
            2 * source_end(tokens) <= usize::MAX,
            0 <= i < tokens.len(),
            tokens[i] == token@,
            token@.is_text(),
            self.inv(tokens, i, start_of(tokens, i)),
        ensures
            match r {
                Ok(w) => cut_text(
                    tokens,
                    max_chunk_size as int,
                    self.state(),
                    token@,
                    token@.text,
                    token@.index,
                ) == Ok::<SubState, SplitErrorView>(w.state()) && w.inv(
                    tokens,
                    i + 1,
                    start_of(tokens, i + 1),
                ),
                Err(e) => cut_text(
                    tokens,
                    max_chunk_size as int,
                    self.state(),
                    token@,
                    token@.text,
                    token@.index,
                ) == Err::<SubState, SplitErrorView>(e@) && error_wf(e),
            },
    {
        let ghost max = max_chunk_size as int;
        let ghost target = cut_text(tokens, max, self.state(), token@, token@.text, token@.index);
        let ghost places = self.places@;
        let mut w = self;
        let mut text = token.as_text();
        let mut text_start_index = token.index();
        let mut done = false;
        proof {
            lemma_stack_bounds(tokens, places, i);
            lemma_stack_text(tokens, places, i);
            lemma_start_of(tokens, i, i + 1);
        }
        while !done
            invariant
                in_source_order(tokens),
                none_empty(tokens),
                2 * source_end(tokens) <= usize::MAX,
                0 <= i < tokens.len(),
                tokens[i] == token@,
                token@.is_text(),
                max == max_chunk_size,
                target == cut_text(
                    tokens,
                    max,
                    self.state(),
                    token@,
                    token@.text,
                    token@.index,
                ),
                token@.end() <= usize::MAX,
                w.state().stack == places,
                stack_inv(tokens, places, i + 1),
                start_of(tokens, i) <= start_of(tokens, i + 1),
                !done ==> w.inv(tokens, i, text_start_index as nat),
                !done ==> text.spec_bytes().len() > 0,
                !done ==> text_start_index + text.spec_bytes().len() == token@.end(),
                !done ==> cut_text(
                    tokens,
                    max,
                    w.state(),
                    token@,
                    text.spec_bytes(),
                    text_start_index as nat,
                ) == target,
                done ==> w.inv(tokens, i, 0),
                done ==> w.tg.len <= start_of(tokens, i),
                done ==> Ok::<SubState, SplitErrorView>(w.state()) == target,
            decreases text.spec_bytes().len(), (if done { 0int } else { 1int }),
        {
            match w.cut_once(
                token,
                text,
                text_start_index,
                max_chunk_size,
                Ghost(tokens),
                Ghost(i),
            ) {
                Err(e) => {
                    return Err(e);
                },
                Ok((cut, taken)) => {
                    w = cut;
                    let (_, behind) = crate::bytes::cut_at(text, taken);
                    text = behind;
                    text_start_index += taken;
                    if byte_len(text) == 0 {
                        done = true;
                    }
                },
            }
        }
        Ok(w)
    }

    /// Walks over the text `token`, which stands at `i`.
    pub(crate) fn take_text(
        self,
        token: Token<'a>,
        max_chunk_size: usize,
        Ghost(tokens): Ghost<Seq<TokenView>>,
        Ghost(i): Ghost<int>,
    ) -> (r: Result<Self, SplitError<'a>>)
        requires
            in_source_order(tokens),
            none_empty(tokens),
            2 * source_end(tokens) <= usize::MAX,
            0 <= i < tokens.len(),
            tokens[i] == token@,
            token@.is_text(),
            self.inv(tokens, i, start_of(tokens, i)),
        ensures
            match r {
                Ok(w) => step_text(tokens, max_chunk_size as int, self.state(), i) == Ok::<
                    Walk,
                    SplitErrorView,
                >(Walk { state: w.state(), next: i + 1 }) && w.inv(
                    tokens,
                    i + 1,
                    start_of(tokens, i + 1),
                ),
                Err(e) => step_text(tokens, max_chunk_size as int, self.state(), i) == Err::<
                    Walk,
                    SplitErrorView,
                >(e@) && error_wf(e),
            },
    {
        proof {
            reveal(step_text);
            lemma_stack_text(tokens, self.places@, i);
            lemma_stack_len(tokens, self.places@, i);
            lemma_stack_bounds(tokens, self.places@, i);
            lemma_start_of(tokens, i, i + 1);
            lemma_push_token_len(self.tg@, token@);
        }
        if sum_of(self.tg.len, self.future_close_len, token.len(), 0) <= max_chunk_size as u128 {
            let mut w = self;
            w.tg.push(token);
            Ok(w)
        } else {
            self.take_long_text(token, max_chunk_size, Ghost(tokens), Ghost(i))
        }
    }

    /// The groups at the end of the walk.
    pub(crate) fn finish(self, max_chunk_size: usize, Ghost(tokens): Ghost<Seq<TokenView>>) -> (r: Result<
        Vec<TokenGroup<'a>>,
        SplitError<'a>,
    >)
        requires
            self.inv(tokens, tokens.len() as int, start_of(tokens, tokens.len() as int)),
        ensures
            subdivided(r) == finish(max_chunk_size as int, self.state()),
            match r {
                Ok(groups) => all_wf(groups@),
                Err(e) => error_wf(e),
            },
    {
        let ghost max = max_chunk_size as int;
        let ghost out = last_out(self.state());
        proof {
            reveal(finish);
        }
        let Walker { stack, closes, future_close_len, tg, token_groups, places } = self;
        let mut token_groups = token_groups;
        if tg.tokens.len() > 0 && !tg.is_all_open() {
            proof {
                lemma_group_views_push(token_groups@, tg);
            }
            token_groups.push(tg);
        }
        let mut k: usize = 0;
        while k < token_groups.len()
            invariant
                all_wf(token_groups@),
                out == group_views(token_groups@),
                max == max_chunk_size,
                k <= token_groups.len(),
                forall|l: int| 0 <= l < k ==> total_len(#[trigger] out[l]) <= max,
            ensures
                k == token_groups.len() || token_groups[k as int].len > max_chunk_size,
            decreases token_groups.len() - k,
        {
            if token_groups[k].len > max_chunk_size {
                break ;
            }
            k += 1;
        }
        if k < token_groups.len() {
            assert(out[k as int] == token_groups@[k as int]@);
            Err(SplitError::SubdividedExceedingTheLimit(token_groups))
        } else {
            Ok(token_groups)
        }
    }
}

} // verus!
