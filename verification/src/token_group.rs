//! Token groups: a run of tokens and the number of bytes they take.

use crate::bytes::tail;
use crate::source::{in_source_order, lemma_order_empty, lemma_push_order, source_end};
use crate::token::{Token, TokenView};
use crate::tokenizer::{first_token, first_token_len, lemma_first_token_len, spec_tokens, Tokenizer};
use std::ops::Range;
use vstd::prelude::*;
use vstd::string::*;
use vstd::utf8::*;

verus! {

broadcast use {vstd::utf8::encode_utf8_valid_utf8, vstd::utf8::encode_utf8_decode_utf8};

/// The tokens of a vector as values.
pub open spec fn views<'a>(tokens: Seq<Token<'a>>) -> Seq<TokenView> {
    tokens.map_values(|t: Token<'a>| t@)
}

/// The number of bytes that the tokens take together.
pub open spec fn total_len(tokens: Seq<TokenView>) -> nat
    decreases tokens.len(),
{
    if tokens.len() == 0 {
        0
    } else {
        total_len(tokens.drop_last()) + tokens.last().len()
    }
}

/// The bytes of the tokens, one after the other: what a group reads as.
pub open spec fn concat_text(tokens: Seq<TokenView>) -> Seq<u8>
    decreases tokens.len(),
{
    if tokens.len() == 0 {
        Seq::empty()
    } else {
        concat_text(tokens.drop_last()) + tokens.last().text
    }
}

/// A group after one more token. A close tag that comes right after an open
/// tag takes that open tag away and does not enter the group itself.
pub open spec fn push_token(group: Seq<TokenView>, token: TokenView) -> Seq<TokenView> {
    if token.is_close() && group.len() > 0 && group.last().is_open() {
        group.drop_last()
    } else {
        group.push(token)
    }
}

/// A group after the given tokens, pushed in their order.
pub open spec fn push_all(group: Seq<TokenView>, tokens: Seq<TokenView>) -> Seq<TokenView>
    decreases tokens.len(),
{
    if tokens.len() == 0 {
        group
    } else {
        push_token(push_all(group, tokens.drop_last()), tokens.last())
    }
}

/// Whether every token is an open tag.
pub open spec fn all_open(tokens: Seq<TokenView>) -> bool {
    forall|i: int| 0 <= i < tokens.len() ==> (#[trigger] tokens[i]).is_open()
}

/// Whether no token is empty.
pub open spec fn none_empty(tokens: Seq<TokenView>) -> bool {
    forall|i: int| 0 <= i < tokens.len() ==> (#[trigger] tokens[i]).len() > 0
}

/// Whether no open tag is closed by the token right behind it.
pub open spec fn no_empty_tag(tokens: Seq<TokenView>) -> bool {
    forall|k: int|
        0 <= k < tokens.len() - 1 ==> !((#[trigger] tokens[k]).is_open() && tokens[k
            + 1].is_close())
}

/// A group that is built by pushes holds no open tag that is closed at once.
pub proof fn lemma_push_token_no_empty_tag(group: Seq<TokenView>, token: TokenView)
    requires
        no_empty_tag(group),
    ensures
        no_empty_tag(push_token(group, token)),
{
    let pushed = push_token(group, token);
    assert forall|k: int| 0 <= k < pushed.len() - 1 implies !((#[trigger] pushed[k]).is_open()
        && pushed[k + 1].is_close()) by {}
}

/// The same for a push of many.
pub proof fn lemma_push_all_no_empty_tag(group: Seq<TokenView>, tokens: Seq<TokenView>)
    requires
        no_empty_tag(group),
    ensures
        no_empty_tag(push_all(group, tokens)),
    decreases tokens.len(),
{
    if tokens.len() > 0 {
        lemma_push_all_no_empty_tag(group, tokens.drop_last());
        lemma_push_token_no_empty_tag(push_all(group, tokens.drop_last()), tokens.last());
    }
}

/// One more token in a vector.
pub proof fn lemma_views_push<'a>(tokens: Seq<Token<'a>>, token: Token<'a>)
    ensures
        views(tokens.push(token)) == views(tokens).push(token@),
{
}

/// One token less in a vector.
pub proof fn lemma_views_drop_last<'a>(tokens: Seq<Token<'a>>)
    requires
        tokens.len() > 0,
    ensures
        views(tokens.drop_last()) == views(tokens).drop_last(),
{
}

/// One more token adds its bytes.
pub proof fn lemma_total_len_push(tokens: Seq<TokenView>, token: TokenView)
    ensures
        total_len(tokens.push(token)) == total_len(tokens) + token.len(),
{
    assert(tokens.push(token).drop_last() =~= tokens);
}

/// The length of two runs of tokens is the sum of their lengths.
pub proof fn lemma_total_len_add(a: Seq<TokenView>, b: Seq<TokenView>)
    ensures
        total_len(a + b) == total_len(a) + total_len(b),
    decreases b.len(),
{
    if b.len() > 0 {
        lemma_total_len_add(a, b.drop_last());
        assert((a + b).drop_last() =~= a + b.drop_last());
    }
}

/// A push adds the token's bytes or takes those of an open tag away.
pub proof fn lemma_push_token_len(group: Seq<TokenView>, token: TokenView)
    ensures
        total_len(push_token(group, token)) <= total_len(group) + token.len(),
        none_empty(group) && token.len() > 0 ==> none_empty(push_token(group, token)),
{
    lemma_total_len_push(group, token);
}

/// A push of many adds at most their bytes.
pub proof fn lemma_push_all_len(group: Seq<TokenView>, tokens: Seq<TokenView>)
    ensures
        total_len(push_all(group, tokens)) <= total_len(group) + total_len(tokens),
        none_empty(group) && none_empty(tokens) ==> none_empty(push_all(group, tokens)),
    decreases tokens.len(),
{
    if tokens.len() > 0 {
        lemma_push_all_len(group, tokens.drop_last());
        lemma_push_token_len(push_all(group, tokens.drop_last()), tokens.last());
        if none_empty(tokens) {
            assert forall|i: int| 0 <= i < tokens.drop_last().len() implies (
            #[trigger] tokens.drop_last()[i]).len() > 0 by {}
        }
    }
}

/// Pushing a run is pushing its first token and then the rest.
pub proof fn lemma_push_all_first(group: Seq<TokenView>, first: TokenView, rest: Seq<TokenView>)
    ensures
        push_all(group, seq![first] + rest) == push_all(push_token(group, first), rest),
    decreases rest.len(),
{
    let all = seq![first] + rest;
    if rest.len() == 0 {
        assert(push_all(group, all.drop_last()) == group);
    } else {
        lemma_push_all_first(group, first, rest.drop_last());
        assert(all.drop_last() =~= seq![first] + rest.drop_last());
    }
}

/// Pushing one more token after a run.
pub proof fn lemma_push_all_push(group: Seq<TokenView>, tokens: Seq<TokenView>, token: TokenView)
    ensures
        push_all(group, tokens.push(token)) == push_token(push_all(group, tokens), token),
{
    assert(tokens.push(token).drop_last() =~= tokens);
}

/// The encoding of two strings, one after the other.
pub proof fn lemma_encode_add(a: Seq<char>, b: Seq<char>)
    ensures
        encode_utf8(a + b) == encode_utf8(a) + encode_utf8(b),
    decreases a.len(),
{
    if a.len() > 0 {
        lemma_encode_add(a.drop_first(), b);
        assert((a + b).drop_first() =~= a.drop_first() + b);
    }
}

/// A run of tokens, with the number of bytes that they take.
#[derive(Debug)]
pub struct TokenGroup<'a> {
    pub tokens: Vec<Token<'a>>,
    pub len: usize,
}

impl<'a> View for TokenGroup<'a> {
    type V = Seq<TokenView>;

    open spec fn view(&self) -> Seq<TokenView> {
        views(self.tokens@)
    }
}

impl<'a> Default for TokenGroup<'a> {
    fn default() -> (r: Self)
        ensures
            r@ == Seq::<TokenView>::empty(),
            r.wf(),
    {
        TokenGroup { tokens: Vec::new(), len: 0 }
    }
}

impl<'a> TokenGroup<'a> {
    /// `len` is the number of bytes of the tokens.
    pub open spec fn counted(&self) -> bool {
        self.len == total_len(self@)
    }

    /// `len` is the number of bytes of the tokens, and no token is empty, as
    /// in every group that is read from a source.
    pub open spec fn wf(&self) -> bool {
        &&& self.counted()
        &&& none_empty(self@)
    }

    /// Adds a token at the end, unless it closes the open tag that stands
    /// there: then that open tag leaves.
    pub fn push(&mut self, token: Token<'a>)
        requires
            old(self).counted(),
            old(self).len + token@.len() <= usize::MAX,
        ensures
            final(self).counted(),
            final(self)@ == push_token(old(self)@, token@),
            old(self).wf() && token@.len() > 0 ==> final(self).wf(),
    {
        let n = self.tokens.len();
        let is_empty_tag = token.is_close() && n > 0 && self.tokens[n - 1].is_open();
        if is_empty_tag {
            self.pop();
            return ;
        }
        proof {
            lemma_views_push(self.tokens@, token);
            lemma_total_len_push(self@, token@);
        }
        self.tokens.push(token);
        self.len += token.len();
    }

    /// Takes the last token away.
    pub fn pop(&mut self) -> (r: Option<Token<'a>>)
        requires
            old(self).counted(),
        ensures
            final(self).counted(),
            old(self).wf() ==> final(self).wf(),
            match r {
                Some(token) => old(self)@.len() > 0 && token@ == old(self)@.last() && final(self)@
                    == old(self)@.drop_last(),
                None => old(self)@.len() == 0 && final(self)@ == old(self)@,
            },
    {
        proof {
            if self.tokens@.len() > 0 {
                lemma_views_drop_last(self.tokens@);
            }
        }
        match self.tokens.pop() {
            None => None,
            Some(token) => {
                self.len -= token.len();
                Some(token)
            },
        }
    }

    /// Pushes the open tags of a stack, the outermost first.
    pub fn open_from_stack(&mut self, stack: &[Token<'a>])
        requires
            old(self).counted(),
            old(self).len + total_len(views(stack@)) <= usize::MAX,
        ensures
            final(self).counted(),
            final(self)@ == push_all(old(self)@, views(stack@)),
            old(self).wf() && none_empty(views(stack@)) ==> final(self).wf(),
    {
        let mut i: usize = 0;
        while i < stack.len()
            invariant
                i <= stack.len(),
                self.counted(),
                old(self).wf() && none_empty(views(stack@)) ==> self.wf(),
                old(self).len + total_len(views(stack@)) <= usize::MAX,
                self@ == push_all(old(self)@, views(stack@).take(i as int)),
                self.len <= old(self).len + total_len(views(stack@).take(i as int)),
            decreases stack.len() - i,
        {
            proof {
                let all = views(stack@);
                let before = all.take(i as int);
                let after = all.take(i + 1);
                assert(after =~= before.push(all[i as int]));
                lemma_push_all_push(old(self)@, before, all[i as int]);
                lemma_total_len_push(before, all[i as int]);
                lemma_push_token_len(self@, all[i as int]);
                assert(all =~= after + all.skip(i + 1));
                lemma_total_len_add(after, all.skip(i + 1));
            }
            self.push(stack[i]);
            i += 1;
        }
        proof {
            assert(views(stack@).take(stack@.len() as int) =~= views(stack@));
        }
    }

    /// Pushes the close tags that a stack is waiting for, the innermost first.
    /// `closes` holds them in the order of the stack.
    pub fn close_from_stack(&mut self, closes: &[Token<'a>])
        requires
            old(self).counted(),
            old(self).len + total_len(views(closes@)) <= usize::MAX,
        ensures
            final(self).counted(),
            final(self)@ == push_all(old(self)@, views(closes@).reverse()),
            old(self).wf() && none_empty(views(closes@)) ==> final(self).wf(),
    {
        let n = closes.len();
        let mut i: usize = 0;
        proof {
            lemma_total_len_reverse(views(closes@));
        }
        while i < n
            invariant
                n == closes.len(),
                i <= n,
                self.counted(),
                old(self).wf() && none_empty(views(closes@)) ==> self.wf(),
                old(self).len + total_len(views(closes@).reverse()) <= usize::MAX,
                self@ == push_all(old(self)@, views(closes@).reverse().take(i as int)),
                self.len <= old(self).len + total_len(views(closes@).reverse().take(i as int)),
            decreases n - i,
        {
            proof {
                let all = views(closes@).reverse();
                let before = all.take(i as int);
                let after = all.take(i + 1);
                assert(after =~= before.push(all[i as int]));
                lemma_push_all_push(old(self)@, before, all[i as int]);
                lemma_total_len_push(before, all[i as int]);
                lemma_push_token_len(self@, all[i as int]);
                assert(all =~= after + all.skip(i + 1));
                lemma_total_len_add(after, all.skip(i + 1));
            }
            self.push(closes[n - 1 - i]);
            i += 1;
        }
        proof {
            let all = views(closes@).reverse();
            assert(all.take(n as int) =~= all);
        }
    }

    /// A group of its own for the tokens in `range`: the open tags of the
    /// stack, those tokens, and the close tags that the stack is waiting for.
    pub fn wrap(&self, range: Range<usize>, stack: &[Token<'a>], closes: &[Token<'a>]) -> (r: Self)
        requires
            self.counted(),
            range.start <= range.end <= self@.len(),
            total_len(views(stack@)) + total_len(self@.subrange(range.start as int, range.end as int))
                + total_len(views(closes@)) <= usize::MAX,
        ensures
            r.counted(),
            self.wf() && none_empty(views(stack@)) && none_empty(views(closes@)) ==> r.wf(),
            r@ == push_all(
                push_all(
                    push_all(Seq::empty(), views(stack@)),
                    self@.subrange(range.start as int, range.end as int),
                ),
                views(closes@).reverse(),
            ),
    {
        let mut tg = Self::default();
        tg.open_from_stack(stack);
        let ghost opened = tg@;
        let ghost inner = self@.subrange(range.start as int, range.end as int);
        proof {
            lemma_push_all_len(Seq::empty(), views(stack@));
        }
        let mut i: usize = range.start;
        while i < range.end
            invariant
                range.start <= i <= range.end <= self@.len(),
                tg.counted(),
                self.wf() && none_empty(views(stack@)) ==> tg.wf(),
                inner == self@.subrange(range.start as int, range.end as int),
                tg@ == push_all(opened, inner.take(i - range.start)),
                tg.len <= total_len(views(stack@)) + total_len(inner.take(i - range.start)),
                total_len(views(stack@)) + total_len(inner) + total_len(views(closes@))
                    <= usize::MAX,
            decreases range.end - i,
        {
            proof {
                let k = i - range.start;
                let before = inner.take(k);
                let after = inner.take(k + 1);
                assert(after =~= before.push(inner[k]));
                lemma_push_all_push(opened, before, inner[k]);
                lemma_total_len_push(before, inner[k]);
                lemma_push_token_len(tg@, inner[k]);
                assert(inner =~= after + inner.skip(k + 1));
                lemma_total_len_add(after, inner.skip(k + 1));
            }
            tg.push(self.tokens[i]);
            i += 1;
        }
        proof {
            assert(inner.take(range.end - range.start) =~= inner);
        }
        tg.close_from_stack(closes);
        tg
    }

    /// A new group that starts with the open tags of a stack.
    pub fn new_from_stack(stack: &[Token<'a>]) -> (r: Self)
        requires
            total_len(views(stack@)) <= usize::MAX,
        ensures
            r.counted(),
            r@ == push_all(Seq::empty(), views(stack@)),
            none_empty(views(stack@)) ==> r.wf(),
    {
        let mut tg = TokenGroup::default();
        tg.open_from_stack(stack);
        tg
    }

    /// Whether the group holds open tags only.
    pub fn is_all_open(&self) -> (r: bool)
        ensures
            r == all_open(self@),
    {
        let mut i: usize = 0;
        while i < self.tokens.len()
            invariant
                i <= self.tokens.len(),
                forall|j: int| 0 <= j < i ==> (#[trigger] self@[j]).is_open(),
            decreases self.tokens.len() - i,
        {
            if !self.tokens[i].is_open() {
                assert(!self@[i as int].is_open());
                return false;
            }
            i += 1;
        }
        true
    }

    /// The tokens of a source as one group.
    pub fn from_string(html: &'a str) -> (r: Self)
        ensures
            r.wf(),
            r@ == push_all(Seq::empty(), spec_tokens(html.spec_bytes(), 0)),
            in_source_order(r@),
            source_end(r@) <= html.spec_bytes().len(),
            no_empty_tag(r@),
    {
        proof {
            lemma_push_all_no_empty_tag(Seq::empty(), spec_tokens(html.spec_bytes(), 0));
        }
        let mut tg = Self::default();
        let mut tokenizer = Tokenizer::new(html);
        let ghost all = spec_tokens(html.spec_bytes(), 0);
        proof {
            lemma_order_empty();
        }
        loop
            invariant
                tokenizer.wf(),
                tg.wf(),
                tg.len <= tokenizer.offset(),
                in_source_order(tg@),
                source_end(tg@) <= tokenizer.offset(),
                tokenizer.offset() + tokenizer.rest().len() == html.spec_bytes().len(),
                all == spec_tokens(html.spec_bytes(), 0),
                push_all(tg@, spec_tokens(tokenizer.rest(), tokenizer.offset())) == push_all(
                    Seq::empty(),
                    all,
                ),
            ensures
                tg.wf(),
                tg@ == push_all(Seq::empty(), all),
                in_source_order(tg@),
                source_end(tg@) <= html.spec_bytes().len(),
            decreases tokenizer.rest().len(),
        {
            let ghost rest = tokenizer.rest();
            let ghost offset = tokenizer.offset();
            match tokenizer.next() {
                None => {
                    break ;
                },
                Some(token) => {
                    proof {
                        lemma_first_token_len(rest);
                        lemma_push_all_first(
                            tg@,
                            first_token(rest, offset),
                            spec_tokens(
                                tail(rest, first_token_len(rest)),
                                offset + first_token_len(rest) as nat,
                            ),
                        );
                        lemma_push_token_len(tg@, token@);
                        lemma_push_order(tg@, token@);
                    }
                    tg.push(token);
                },
            }
        }
        tg
    }

    /// The group as a string: the slices of its tokens, one after the other.
    pub fn to_string(&self) -> (r: String)
        ensures
            encode_utf8(r@) == concat_text(self@),
    {
        let mut s = String::new();
        let mut i: usize = 0;
        while i < self.tokens.len()
            invariant
                i <= self.tokens.len(),
                encode_utf8(s@) == concat_text(self@.take(i as int)),
            decreases self.tokens.len() - i,
        {
            let piece = self.tokens[i].as_text();
            proof {
                lemma_encode_add(s@, piece@);
                assert(self@.take(i + 1).drop_last() =~= self@.take(i as int));
            }
            s.append(piece);
            i += 1;
        }
        proof {
            assert(self@.take(self.tokens.len() as int) =~= self@);
        }
        s
    }
}

/// The tokens in the opposite order take as many bytes.
pub proof fn lemma_total_len_reverse(tokens: Seq<TokenView>)
    ensures
        total_len(tokens.reverse()) == total_len(tokens),
        none_empty(tokens) ==> none_empty(tokens.reverse()),
    decreases tokens.len(),
{
    if tokens.len() > 0 {
        let r = tokens.reverse();
        lemma_total_len_reverse(tokens.drop_last());
        assert(r =~= seq![tokens.last()] + tokens.drop_last().reverse());
        lemma_total_len_add(seq![tokens.last()], tokens.drop_last().reverse());
        lemma_total_len_push(Seq::empty(), tokens.last());
    }
    if none_empty(tokens) {
        assert forall|i: int| 0 <= i < tokens.reverse().len() implies (
        #[trigger] tokens.reverse()[i]).len() > 0 by {}
    }
}

} // verus!
