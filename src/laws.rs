//! Laws of the chain, stated over its transition table.
use vstd::prelude::*;
use crate::chain::{bump, count_in, dist_of, fed, feed_from, record, word_tokens, Table};
use crate::generate::{is_walk, walk_end};
use crate::token::{shift, start_context, TokenView};

verus! {

/// A chain that was just created has no window, so it reports empty and `generate` gives
/// `None`.
pub proof fn lemma_fresh_chain_empty(c: crate::chain::Chain)
    requires
        c@.table == Table::empty(),
    ensures
        c@.table.dom() == Set::<Seq<TokenView>>::empty(),
{
    assert(c@.table.dom() =~= Set::<Seq<TokenView>>::empty());
}

/// Feeding keeps every window of the table and holds the window it started from.
pub proof fn lemma_feed_from_keys(table: Table, ctx: Seq<TokenView>, toks: Seq<TokenView>)
    ensures
        feed_from(table, ctx, toks).contains_key(ctx),
        forall|k: Seq<TokenView>| table.contains_key(k) ==> #[trigger] feed_from(table, ctx, toks).contains_key(k),
    decreases toks.len(),
{
    if toks.len() > 0 {
        let r = record(table, ctx, toks[0]);
        lemma_feed_from_keys(r, shift(ctx, toks[0]), toks.drop_first());
    }
}

/// After any sequence is fed, the table is not empty.
pub proof fn lemma_fed_not_empty(table: Table, order: nat, words: Seq<TokenView>)
    ensures
        fed(table, order, words).dom() != Set::<Seq<TokenView>>::empty(),
{
    lemma_feed_from_keys(table, crate::token::start_context(order), words);
    assert(fed(table, order, words).dom().contains(crate::token::start_context(order)));
}

/// The count that a record leaves, where the count before it is below the largest `u64`.
pub proof fn lemma_record_count(table: Table, ctx: Seq<TokenView>, t: TokenView, k: Seq<TokenView>, u: TokenView)
    requires
        count_in(table, ctx, t) < u64::MAX,
    ensures
        count_in(record(table, ctx, t), k, u) == count_in(table, k, u) + if k == ctx && u == t { 1nat } else { 0nat },
{
    let d = dist_of(table, ctx).insert(t, bump(count_in(table, ctx, t)));
    if k == ctx {
        if u == t {
        } else {
            assert(d.contains_key(u) == dist_of(table, ctx).contains_key(u));
        }
    }
}

/// Counts add up: feeding from a table gives the table's counts plus those that the same
/// feed gives from an empty table, as long as no count reaches the largest `u64`.
pub proof fn lemma_feed_from_additive(table: Table, ctx: Seq<TokenView>, toks: Seq<TokenView>, k: Seq<TokenView>, u: TokenView)
    requires
        forall|k2: Seq<TokenView>, u2: TokenView| #[trigger] count_in(table, k2, u2) + toks.len() + 1 < u64::MAX,
    ensures
        count_in(feed_from(table, ctx, toks), k, u) == count_in(table, k, u) + count_in(feed_from(Table::empty(), ctx, toks), k, u),
    decreases toks.len(),
{
    let x = if toks.len() == 0 { TokenView::End } else { toks[0] };
    let e = Table::empty();
    assert(count_in(table, ctx, x) + toks.len() + 1 < u64::MAX);
    assert(count_in(e, ctx, x) == 0);
    lemma_record_count(table, ctx, x, k, u);
    lemma_record_count(e, ctx, x, k, u);
    if toks.len() > 0 {
        let rest = toks.drop_first();
        let next = shift(ctx, x);
        let r1 = record(table, ctx, x);
        let r2 = record(e, ctx, x);
        assert forall|k2: Seq<TokenView>, u2: TokenView| #[trigger] count_in(r1, k2, u2) + rest.len() + 1 < u64::MAX by {
            lemma_record_count(table, ctx, x, k2, u2);
            assert(count_in(table, k2, u2) + toks.len() + 1 < u64::MAX);
        }
        assert forall|k2: Seq<TokenView>, u2: TokenView| #[trigger] count_in(r2, k2, u2) + rest.len() + 1 < u64::MAX by {
            lemma_record_count(e, ctx, x, k2, u2);
            assert(count_in(table, k2, u2) + toks.len() + 1 < u64::MAX);
        }
        lemma_feed_from_additive(r1, next, rest, k, u);
        lemma_feed_from_additive(r2, next, rest, k, u);
    }
}

/// One feed adds at most one per token, and one for the end marker, to any count.
pub proof fn lemma_feed_from_bound(table: Table, ctx: Seq<TokenView>, toks: Seq<TokenView>, k: Seq<TokenView>, u: TokenView)
    ensures
        count_in(feed_from(table, ctx, toks), k, u) <= count_in(table, k, u) + toks.len() + 1,
    decreases toks.len(),
{
    let x = if toks.len() == 0 { TokenView::End } else { toks[0] };
    let r = record(table, ctx, x);
    assert(count_in(r, k, u) <= count_in(table, k, u) + 1) by {
        let d = dist_of(table, ctx).insert(x, bump(count_in(table, ctx, x)));
        if k == ctx && u != x {
            assert(d.contains_key(u) == dist_of(table, ctx).contains_key(u));
        }
    }
    if toks.len() > 0 {
        lemma_feed_from_bound(r, shift(ctx, x), toks.drop_first(), k, u);
    }
}

/// Feeding the same sequence twice into an empty chain doubles every count that feeding it
/// once gives: counts are only ever added to. Counts stay far below the largest `u64` for any
/// sequence that fits in memory.
pub proof fn lemma_feed_twice_doubles(order: nat, words: Seq<TokenView>, k: Seq<TokenView>, u: TokenView)
    requires
        2 * (words.len() + 1) < u64::MAX,
    ensures
        count_in(fed(fed(Table::empty(), order, words), order, words), k, u) == 2 * count_in(fed(Table::empty(), order, words), k, u),
{
    let once = fed(Table::empty(), order, words);
    assert forall|k2: Seq<TokenView>, u2: TokenView| #[trigger] count_in(once, k2, u2) + words.len() + 1 < u64::MAX by {
        lemma_feed_from_bound(Table::empty(), crate::token::start_context(order), words, k2, u2);
    }
    lemma_feed_from_additive(once, crate::token::start_context(order), words, k, u);
}

} // verus!

verus! {

/// From window `ctx` some walk leads to a window after which the end marker was seen.
pub open spec fn reaches_end(table: Table, ctx: Seq<TokenView>) -> bool {
    exists|out: Seq<Seq<char>>|
        #[trigger] is_walk(table, ctx, out) && count_in(table, walk_end(ctx, out), TokenView::End) > 0
}

/// Every window of the table can reach the end marker.
pub open spec fn all_reach_end(table: Table) -> bool {
    forall|k: Seq<TokenView>| #[trigger] table.contains_key(k) ==> reaches_end(table, k)
}

/// Every transition of `t1` is one of `t2`.
pub open spec fn covers(t1: Table, t2: Table) -> bool {
    forall|k: Seq<TokenView>, u: TokenView| #[trigger] count_in(t1, k, u) > 0 ==> count_in(t2, k, u) > 0
}

proof fn lemma_walk_cons(table: Table, ctx: Seq<TokenView>, w: Seq<char>, rest: Seq<Seq<char>>)
    ensures
        is_walk(table, ctx, seq![w] + rest) == (count_in(table, ctx, TokenView::Word(w)) > 0
            && is_walk(table, shift(ctx, TokenView::Word(w)), rest)),
        walk_end(ctx, seq![w] + rest) == walk_end(shift(ctx, TokenView::Word(w)), rest),
    decreases rest.len(),
{
    let s = seq![w] + rest;
    if rest.len() == 0 {
        assert(s.drop_last() =~= Seq::<Seq<char>>::empty());
        assert(s.last() == w);
        assert(rest =~= Seq::<Seq<char>>::empty());
        assert(is_walk(table, shift(ctx, TokenView::Word(w)), rest));
        assert(walk_end(ctx, s.drop_last()) == ctx);
        assert(is_walk(table, ctx, s.drop_last()));
        assert(is_walk(table, ctx, s) == (count_in(table, ctx, TokenView::Word(w)) > 0));
    } else {
        assert(s.drop_last() =~= seq![w] + rest.drop_last());
        assert(s.last() == rest.last());
        lemma_walk_cons(table, ctx, w, rest.drop_last());
        assert(is_walk(table, ctx, s) == (is_walk(table, ctx, s.drop_last()) && count_in(
            table,
            walk_end(ctx, s.drop_last()),
            TokenView::Word(s.last()),
        ) > 0));
        let c1 = shift(ctx, TokenView::Word(w));
        assert(is_walk(table, c1, rest) == (is_walk(table, c1, rest.drop_last()) && count_in(
            table,
            walk_end(c1, rest.drop_last()),
            TokenView::Word(rest.last()),
        ) > 0));
        assert(walk_end(ctx, s.drop_last()) == walk_end(c1, rest.drop_last()));
        assert(is_walk(table, ctx, s.drop_last()) == (count_in(table, ctx, TokenView::Word(w)) > 0
            && is_walk(table, c1, rest.drop_last())));
        assert(is_walk(table, ctx, s) == (count_in(table, ctx, TokenView::Word(w)) > 0
            && is_walk(table, c1, rest)));
    }
}

proof fn lemma_walk_covers(t1: Table, t2: Table, ctx: Seq<TokenView>, out: Seq<Seq<char>>)
    requires
        covers(t1, t2),
        is_walk(t1, ctx, out),
    ensures
        is_walk(t2, ctx, out),
    decreases out.len(),
{
    if out.len() > 0 {
        lemma_walk_covers(t1, t2, ctx, out.drop_last());
        assert(count_in(t1, walk_end(ctx, out.drop_last()), TokenView::Word(out.last())) > 0);
    }
}

proof fn lemma_record_covers(table: Table, ctx: Seq<TokenView>, t: TokenView)
    ensures
        covers(table, record(table, ctx, t)),
        count_in(record(table, ctx, t), ctx, t) > 0,
{
    let r = record(table, ctx, t);
    assert forall|k: Seq<TokenView>, u: TokenView| #[trigger] count_in(table, k, u) > 0 implies count_in(
        r,
        k,
        u,
    ) > 0 by {
        let d = dist_of(table, ctx).insert(t, bump(count_in(table, ctx, t)));
        if k == ctx && u != t {
            assert(d.contains_key(u) == dist_of(table, ctx).contains_key(u));
        }
    }
}

proof fn lemma_feed_from_covers(table: Table, ctx: Seq<TokenView>, toks: Seq<TokenView>)
    ensures
        covers(table, feed_from(table, ctx, toks)),
    decreases toks.len(),
{
    let x = if toks.len() == 0 { TokenView::End } else { toks[0] };
    lemma_record_covers(table, ctx, x);
    if toks.len() > 0 {
        let r = record(table, ctx, x);
        lemma_feed_from_covers(r, shift(ctx, x), toks.drop_first());
    }
}

proof fn lemma_reaches_covers(t1: Table, t2: Table, ctx: Seq<TokenView>)
    requires
        covers(t1, t2),
        reaches_end(t1, ctx),
    ensures
        reaches_end(t2, ctx),
{
    let out = choose|out: Seq<Seq<char>>|
        #[trigger] is_walk(t1, ctx, out) && count_in(t1, walk_end(ctx, out), TokenView::End) > 0;
    lemma_walk_covers(t1, t2, ctx, out);
    assert(count_in(t2, walk_end(ctx, out), TokenView::End) > 0);
}

proof fn lemma_feed_from_reach(table: Table, ctx: Seq<TokenView>, ws: Seq<Seq<char>>)
    ensures
        reaches_end(feed_from(table, ctx, word_tokens(ws)), ctx),
        forall|k: Seq<TokenView>| #[trigger]
            feed_from(table, ctx, word_tokens(ws)).contains_key(k) ==> table.contains_key(k)
                || reaches_end(feed_from(table, ctx, word_tokens(ws)), k),
    decreases ws.len(),
{
    let toks = word_tokens(ws);
    let big = feed_from(table, ctx, toks);
    if ws.len() == 0 {
        lemma_record_covers(table, ctx, TokenView::End);
        assert(is_walk(big, ctx, Seq::<Seq<char>>::empty()));
        assert(walk_end(ctx, Seq::<Seq<char>>::empty()) == ctx);
    } else {
        let w = ws[0];
        let rest = ws.drop_first();
        assert(toks[0] == TokenView::Word(w));
        assert(toks.drop_first() =~= word_tokens(rest));
        let t1 = record(table, ctx, TokenView::Word(w));
        let c1 = shift(ctx, TokenView::Word(w));
        assert(big == feed_from(t1, c1, word_tokens(rest)));
        lemma_feed_from_reach(t1, c1, rest);
        lemma_record_covers(table, ctx, TokenView::Word(w));
        lemma_feed_from_covers(t1, c1, word_tokens(rest));
        assert(count_in(t1, ctx, TokenView::Word(w)) > 0);
        assert(count_in(big, ctx, TokenView::Word(w)) > 0);
        let out1 = choose|out: Seq<Seq<char>>|
            #[trigger] is_walk(big, c1, out) && count_in(big, walk_end(c1, out), TokenView::End) > 0;
        lemma_walk_cons(big, ctx, w, out1);
        assert(is_walk(big, ctx, seq![w] + out1));
        assert forall|k: Seq<TokenView>| #[trigger] big.contains_key(k) implies table.contains_key(k)
            || reaches_end(big, k) by {
            if k == ctx {
            } else if !reaches_end(big, k) {
                assert(t1.contains_key(k));
            }
        }
    }
}

/// Every transition that feeding records lies on a path to the end marker: if every window of
/// a table can reach the end marker, so can every window after one more sequence is fed.
/// Starting from an empty chain, a walk can therefore always still end.
pub proof fn lemma_fed_reaches_end(table: Table, order: nat, ws: Seq<Seq<char>>)
    requires
        all_reach_end(table),
    ensures
        all_reach_end(fed(table, order, word_tokens(ws))),
{
    let ctx = start_context(order);
    let big = fed(table, order, word_tokens(ws));
    lemma_feed_from_reach(table, ctx, ws);
    lemma_feed_from_covers(table, ctx, word_tokens(ws));
    assert forall|k: Seq<TokenView>| #[trigger] big.contains_key(k) implies reaches_end(big, k) by {
        if table.contains_key(k) && !reaches_end(big, k) {
            lemma_reaches_covers(table, big, k);
        }
    }
}

/// An empty table has no window, so the property holds of every new chain.
pub proof fn lemma_empty_reaches_end()
    ensures
        all_reach_end(Table::empty()),
{
}

} // verus!
