//! The chain: an order-N transition table from windows of N tokens to counts of next tokens.
use vstd::prelude::*;
use crate::assoc::{assoc_map, keys_distinct, lemma_assoc_absent, lemma_assoc_index, lemma_assoc_push, lemma_assoc_update};
use crate::token::{copy_tokens, same_tokens, shift, start_context, start_window, tokens_view, Token, TokenView};

verus! {

/// The order a chain gets when none is named.
pub const DEFAULT_ORDER: usize = 2;

/// A next token and how often it followed its window.
pub struct Transition {
    pub token: Token,
    pub count: u64,
}

/// A window and the next tokens seen after it.
pub struct Entry {
    pub context: Vec<Token>,
    pub nexts: Vec<Transition>,
}

/// A Markov chain over word tokens.
pub struct Chain {
    pub order: usize,
    pub entries: Vec<Entry>,
}

/// The transition table: window to (next token to count).
pub type Table = Map<Seq<TokenView>, Map<TokenView, nat>>;

/// The mathematical value of a chain.
pub struct ChainView {
    pub order: nat,
    pub table: Table,
}

pub open spec fn nexts_view(s: Seq<Transition>) -> Seq<(TokenView, nat)> {
    s.map_values(|t: Transition| (t.token@, t.count as nat))
}

pub open spec fn entry_view(e: Entry) -> (Seq<TokenView>, Map<TokenView, nat>) {
    (tokens_view(e.context@), assoc_map(nexts_view(e.nexts@)))
}

pub open spec fn entries_view(s: Seq<Entry>) -> Seq<(Seq<TokenView>, Map<TokenView, nat>)> {
    s.map_values(|e: Entry| entry_view(e))
}

/// What a stored entry keeps: a window of the chain's order, at least one next token, no two
/// alike, each seen at least once, and never a start marker as a next token.
pub open spec fn entry_wf(e: Entry, order: nat) -> bool {
    &&& e.context@.len() == order
    &&& e.nexts@.len() > 0
    &&& keys_distinct(nexts_view(e.nexts@))
    &&& forall|j: int|
        0 <= j < e.nexts@.len() ==> #[trigger] e.nexts@[j].count >= 1 && e.nexts@[j].token@
            != TokenView::Start
}

/// What every table of a chain of order `order` satisfies.
pub open spec fn table_wf(table: Table, order: nat) -> bool {
    forall|k: Seq<TokenView>| #[trigger]
        table.contains_key(k) ==> {
            &&& k.len() == order
            &&& table[k].dom() != Set::<TokenView>::empty()
            &&& forall|t: TokenView| #[trigger]
                table[k].contains_key(t) ==> 1 <= table[k][t] <= u64::MAX && t != TokenView::Start
        }
}

/// How often `t` followed `ctx`; zero when never.
pub open spec fn count_in(table: Table, ctx: Seq<TokenView>, t: TokenView) -> nat {
    if table.contains_key(ctx) && table[ctx].contains_key(t) {
        table[ctx][t]
    } else {
        0
    }
}

/// One more occurrence; a count that has reached the largest `u64` stays there.
pub open spec fn bump(c: nat) -> nat {
    if c < u64::MAX {
        c + 1
    } else {
        c
    }
}

/// The next-token counts of `ctx`; empty where the window was never seen.
pub open spec fn dist_of(table: Table, ctx: Seq<TokenView>) -> Map<TokenView, nat> {
    if table.contains_key(ctx) {
        table[ctx]
    } else {
        Map::empty()
    }
}

/// The table after one more occurrence of `t` following `ctx`.
pub open spec fn record(table: Table, ctx: Seq<TokenView>, t: TokenView) -> Table {
    table.insert(ctx, dist_of(table, ctx).insert(t, bump(count_in(table, ctx, t))))
}

/// The table after the tokens `toks` were consumed from window `ctx`, and the end marker
/// after them.
pub open spec fn feed_from(table: Table, ctx: Seq<TokenView>, toks: Seq<TokenView>) -> Table
    decreases toks.len(),
{
    if toks.len() == 0 {
        record(table, ctx, TokenView::End)
    } else {
        feed_from(record(table, ctx, toks[0]), shift(ctx, toks[0]), toks.drop_first())
    }
}

/// Word tokens for a sequence of character strings.
pub open spec fn word_tokens(ws: Seq<Seq<char>>) -> Seq<TokenView> {
    ws.map_values(|w: Seq<char>| TokenView::Word(w))
}

/// The characters of each string.
pub open spec fn strings_view(ws: Seq<String>) -> Seq<Seq<char>> {
    ws.map_values(|w: String| w@)
}

/// The table after one sequence of words was fed to a chain of order `order`.
pub open spec fn fed(table: Table, order: nat, words: Seq<TokenView>) -> Table {
    feed_from(table, start_context(order), words)
}

impl View for Chain {
    type V = ChainView;

    open spec fn view(&self) -> ChainView {
        ChainView { order: self.order as nat, table: assoc_map(entries_view(self.entries@)) }
    }
}

impl Chain {
    /// The representation invariant.
    pub open spec fn wf(&self) -> bool {
        &&& keys_distinct(entries_view(self.entries@))
        &&& forall|i: int|
            0 <= i < self.entries@.len() ==> #[trigger] entry_wf(self.entries@[i], self.order as nat)
    }

    /// The table of a well-formed chain keeps the table invariant.
    pub proof fn lemma_view_wf(&self)
        requires
            self.wf(),
        ensures
            table_wf(self@.table, self@.order),
    {
        let es = entries_view(self.entries@);
        assert forall|k: Seq<TokenView>| #[trigger] self@.table.contains_key(k) implies {
            &&& k.len() == self@.order
            &&& self@.table[k].dom() != Set::<TokenView>::empty()
            &&& forall|t: TokenView| #[trigger]
                self@.table[k].contains_key(t) ==> 1 <= self@.table[k][t] <= u64::MAX && t
                    != TokenView::Start
        } by {
            let i = choose|i: int| 0 <= i < es.len() && #[trigger] es[i].0 == k;
            lemma_assoc_index(es, i);
            let e = self.entries@[i];
            assert(entry_wf(e, self.order as nat));
            let nv = nexts_view(e.nexts@);
            lemma_assoc_index(nv, 0);
            assert(assoc_map(nv).dom().contains(nv[0].0));
            assert(!Set::<TokenView>::empty().contains(nv[0].0));
            assert forall|t: TokenView| #[trigger] assoc_map(nv).contains_key(t) implies 1
                <= assoc_map(nv)[t] <= u64::MAX && t != TokenView::Start by {
                let j = choose|j: int| 0 <= j < nv.len() && #[trigger] nv[j].0 == t;
                lemma_assoc_index(nv, j);
                assert(e.nexts@[j].count >= 1);
            }
        }
    }

    /// An empty chain of the default order.
    pub fn new() -> (r: Chain)
        ensures
            r.wf(),
            r@.order == DEFAULT_ORDER,
            r@.table == Table::empty(),
    {
        Chain::of_order(DEFAULT_ORDER)
    }

    /// An empty chain whose windows hold `order` tokens.
    pub fn of_order(order: usize) -> (r: Chain)
        ensures
            r.wf(),
            r@.order == order,
            r@.table == Table::empty(),
    {
        let r = Chain { order, entries: Vec::new() };
        assert(r@.table =~= Table::empty());
        r
    }

    /// The number of tokens in each window.
    pub fn order(&self) -> (r: usize)
        ensures
            r == self@.order,
    {
        self.order
    }

    /// Whether nothing has been recorded.
    pub fn is_empty(&self) -> (r: bool)
        requires
            self.wf(),
        ensures
            r == (self@.table.dom() == Set::<Seq<TokenView>>::empty()),
    {
        if self.entries.len() == 0 {
            assert(self@.table.dom() =~= Set::<Seq<TokenView>>::empty());
            true
        } else {
            proof {
                lemma_assoc_index(entries_view(self.entries@), 0);
                assert(self@.table.dom().contains(entries_view(self.entries@)[0].0));
            }
            false
        }
    }

    /// The position of the entry for window `ctx`, if the chain has one.
    pub(crate) fn find_entry(&self, ctx: &Vec<Token>) -> (r: Option<usize>)
        requires
            self.wf(),
        ensures
            match r {
                Some(i) => i < self.entries@.len() && tokens_view(self.entries@[i as int].context@)
                    == tokens_view(ctx@),
                None => !self@.table.contains_key(tokens_view(ctx@)),
            },
    {
        let mut i: usize = 0;
        while i < self.entries.len()
            invariant
                i <= self.entries@.len(),
                forall|j: int|
                    0 <= j < i ==> #[trigger] entries_view(self.entries@)[j].0 != tokens_view(
                        ctx@,
                    ),
            decreases self.entries@.len() - i,
        {
            if same_tokens(&self.entries[i].context, ctx) {
                return Some(i);
            }
            i = i + 1;
        }
        proof {
            lemma_assoc_absent(entries_view(self.entries@), tokens_view(ctx@));
        }
        None
    }

    /// How often `next` followed the window `context`; zero when never.
    pub fn count(&self, context: &Vec<Token>, next: &Token) -> (r: u64)
        requires
            self.wf(),
        ensures
            r == count_in(self@.table, tokens_view(context@), next@),
    {
        match self.find_entry(context) {
            None => 0,
            Some(i) => {
                let e = &self.entries[i];
                proof {
                    assert(entry_wf(self.entries@[i as int], self.order as nat));
                    lemma_assoc_index(entries_view(self.entries@), i as int);
                }
                match find_next(&e.nexts, next) {
                    None => 0,
                    Some(j) => {
                        proof {
                            lemma_assoc_index(nexts_view(e.nexts@), j as int);
                        }
                        e.nexts[j].count
                    },
                }
            },
        }
    }

    /// Feeds one sequence: from a window of start markers, each token is recorded after the
    /// window before it, and the end marker after the last window. An empty sequence records
    /// the end marker after the start window.
    pub fn feed(&mut self, tokens: &Vec<String>)
        requires
            old(self).wf(),
        ensures
            final(self).wf(),
            final(self)@.order == old(self)@.order,
            final(self)@.table == fed(
                old(self)@.table,
                old(self)@.order,
                word_tokens(strings_view(tokens@)),
            ),
    {
        let ghost all = word_tokens(strings_view(tokens@));
        let ghost goal = fed(self@.table, self@.order, all);
        let mut ctx = start_window(self.order);
        assert(ctx@.len() == tokens_view(ctx@).len());
        assert(all.subrange(0, all.len() as int) =~= all);
        let mut i: usize = 0;
        while i < tokens.len()
            invariant
                self.wf(),
                self.order == old(self).order,
                i <= tokens@.len(),
                all == word_tokens(strings_view(tokens@)),
                all.len() == tokens@.len(),
                ctx@.len() == self.order,
                feed_from(self@.table, tokens_view(ctx@), all.subrange(i as int, all.len() as int))
                    == goal,
            decreases tokens@.len() - i,
        {
            let ghost cv = tokens_view(ctx@);
            let ghost x = all[i as int];
            assert(x == TokenView::Word(tokens@[i as int]@));
            self.record(&ctx, Token::Word(tokens[i].clone()));
            if ctx.len() > 0 {
                ctx.remove(0);
                ctx.push(Token::Word(tokens[i].clone()));
                assert(tokens_view(ctx@) =~= cv.drop_first().push(x));
            }
            assert(tokens_view(ctx@) == shift(cv, x));
            assert(all.subrange(i as int, all.len() as int).drop_first() =~= all.subrange(
                i + 1,
                all.len() as int,
            ));
            i = i + 1;
        }
        self.record(&ctx, Token::End);
    }

    /// Feeds the whitespace-separated words of `text` as one sequence.
    pub fn feed_str(&mut self, text: &str)
        requires
            old(self).wf(),
        ensures
            final(self).wf(),
            final(self)@.order == old(self)@.order,
            final(self)@.table == fed(
                old(self)@.table,
                old(self)@.order,
                word_tokens(whitespace_words(text@)),
            ),
    {
        let words = split_words(text);
        self.feed(&words);
    }

    /// Records one more occurrence of `t` following the window `ctx`.
    pub(crate) fn record(&mut self, ctx: &Vec<Token>, t: Token)
        requires
            old(self).wf(),
            ctx@.len() == old(self).order,
            t@ != TokenView::Start,
        ensures
            final(self).wf(),
            final(self).order == old(self).order,
            final(self)@.table == record(old(self)@.table, tokens_view(ctx@), t@),
    {
        let ghost key = tokens_view(ctx@);
        let ghost tv = t@;
        let ghost old_entries = self.entries@;
        match self.find_entry(ctx) {
            Some(i) => {
                proof {
                    lemma_assoc_index(entries_view(old_entries), i as int);
                }
                let mut e = self.entries.remove(i);
                let ghost old_nexts = e.nexts@;
                assert(entry_wf(old_entries[i as int], self.order as nat));
                match find_next(&e.nexts, &t) {
                    Some(j) => {
                        proof {
                            lemma_assoc_index(nexts_view(old_nexts), j as int);
                        }
                        let mut tr = e.nexts.remove(j);
                        if tr.count < u64::MAX {
                            tr.count = tr.count + 1;
                        }
                        e.nexts.insert(j, tr);
                        proof {
                            assert(e.nexts@ =~= old_nexts.update(j as int, tr));
                            assert(nexts_view(e.nexts@) =~= nexts_view(old_nexts).update(
                                j as int,
                                (nexts_view(old_nexts)[j as int].0, tr.count as nat),
                            ));
                            lemma_assoc_update(nexts_view(old_nexts), j as int, tr.count as nat);
                        }
                    },
                    None => {
                        e.nexts.push(Transition { token: t, count: 1 });
                        proof {
                            assert(nexts_view(e.nexts@) =~= nexts_view(old_nexts).push((tv, 1)));
                            lemma_assoc_push(nexts_view(old_nexts), tv, 1);
                        }
                    },
                }
                proof {
                    assert forall|j: int| 0 <= j < e.nexts@.len() implies #[trigger] e.nexts@[j].count
                        >= 1 && e.nexts@[j].token@ != TokenView::Start by {
                        if j < old_nexts.len() {
                            assert(old_nexts[j].count >= 1);
                        }
                    }
                    assert(entry_wf(e, self.order as nat));
                }
                let ghost ev = entry_view(e);
                self.entries.insert(i, e);
                proof {
                    assert(self.entries@ =~= old_entries.update(i as int, e));
                    assert(entries_view(self.entries@) =~= entries_view(old_entries).update(
                        i as int,
                        (entries_view(old_entries)[i as int].0, ev.1),
                    ));
                    lemma_assoc_update(entries_view(old_entries), i as int, ev.1);
                    assert(ev.1 =~= dist_of(assoc_map(entries_view(old_entries)), key).insert(
                        tv,
                        bump(count_in(assoc_map(entries_view(old_entries)), key, tv)),
                    ));
                    assert forall|k: int| 0 <= k < self.entries@.len() implies #[trigger] entry_wf(
                        self.entries@[k],
                        self.order as nat,
                    ) by {
                        if k != i {
                            assert(entry_wf(old_entries[k], self.order as nat));
                        }
                    }
                }
            },
            None => {
                let context = copy_tokens(ctx);
                assert(context@.len() == tokens_view(context@).len());
                assert(ctx@.len() == tokens_view(ctx@).len());
                let mut nexts: Vec<Transition> = Vec::new();
                nexts.push(Transition { token: t, count: 1 });
                let e = Entry { context, nexts };
                proof {
                    assert(nexts_view(e.nexts@) =~= seq![(tv, 1nat)]);
                    lemma_assoc_push(Seq::<(TokenView, nat)>::empty(), tv, 1);
                    assert(Seq::<(TokenView, nat)>::empty().push((tv, 1nat)) =~= seq![(tv, 1nat)]);
                    assert(assoc_map(Seq::<(TokenView, nat)>::empty()) =~= Map::empty());
                    assert(keys_distinct(nexts_view(e.nexts@)));
                    assert(entry_wf(e, self.order as nat));
                }
                let ghost ev = entry_view(e);
                self.entries.push(e);
                proof {
                    assert(entries_view(self.entries@) =~= entries_view(old_entries).push(ev));
                    lemma_assoc_push(entries_view(old_entries), key, ev.1);
                    assert(ev.1 =~= dist_of(assoc_map(entries_view(old_entries)), key).insert(
                        tv,
                        bump(count_in(assoc_map(entries_view(old_entries)), key, tv)),
                    ));
                    assert forall|k: int| 0 <= k < self.entries@.len() implies #[trigger] entry_wf(
                        self.entries@[k],
                        self.order as nat,
                    ) by {
                        if k < old_entries.len() {
                            assert(entry_wf(old_entries[k], self.order as nat));
                        }
                    }
                }
            },
        }
    }
}

/// The words of a text, as `str::split_whitespace` cuts them.
pub uninterp spec fn whitespace_words(s: Seq<char>) -> Seq<Seq<char>>;

/// Relies on `str::split_whitespace`: the words of `text` between runs of whitespace, in
/// order, with no empty word.
#[verifier::external_body]
fn split_words(text: &str) -> (r: Vec<String>)
    ensures
        strings_view(r@) == whitespace_words(text@),
{
    text.split_whitespace().map(|w| w.to_string()).collect()
}

/// The position of `t` among `nexts`, if it is there.
pub(crate) fn find_next(nexts: &Vec<Transition>, t: &Token) -> (r: Option<usize>)
    ensures
        match r {
            Some(j) => j < nexts@.len() && nexts@[j as int].token@ == t@,
            None => !assoc_map(nexts_view(nexts@)).contains_key(t@),
        },
{
    let mut j: usize = 0;
    while j < nexts.len()
        invariant
            j <= nexts@.len(),
            forall|k: int| 0 <= k < j ==> #[trigger] nexts_view(nexts@)[k].0 != t@,
        decreases nexts@.len() - j,
    {
        if nexts[j].token.same(t) {
            return Some(j);
        }
        j = j + 1;
    }
    proof {
        lemma_assoc_absent(nexts_view(nexts@), t@);
    }
    None
}

} // verus!
