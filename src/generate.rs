//! Generation: a weighted random walk over the transition table.
use vstd::prelude::*;
use crate::assoc::{assoc_map, lemma_assoc_index};
use crate::chain::{count_in, entries_view, entry_wf, nexts_view, strings_view, Chain, Table, Transition};
use crate::token::{shift, start_context, start_window, tokens_view, Token, TokenView};

verus! {

/// The sum of the first `n` counts.
pub open spec fn prefix_total(s: Seq<Transition>, n: int) -> nat
    decreases n,
{
    if n <= 0 || n > s.len() {
        0
    } else {
        prefix_total(s, n - 1) + s[n - 1].count as nat
    }
}

/// The window reached from `ctx` after the words `out` were emitted.
pub open spec fn walk_end(ctx: Seq<TokenView>, out: Seq<Seq<char>>) -> Seq<TokenView>
    decreases out.len(),
{
    if out.len() == 0 {
        ctx
    } else {
        shift(walk_end(ctx, out.drop_last()), TokenView::Word(out.last()))
    }
}

/// Each word of `out` was seen after the window that the words before it lead to from `ctx`.
pub open spec fn is_walk(table: Table, ctx: Seq<TokenView>, out: Seq<Seq<char>>) -> bool
    decreases out.len(),
{
    if out.len() == 0 {
        true
    } else {
        is_walk(table, ctx, out.drop_last()) && count_in(
            table,
            walk_end(ctx, out.drop_last()),
            TokenView::Word(out.last()),
        ) > 0
    }
}

/// A walk may stop at `ctx`: the window was never seen, or the end marker followed it.
pub open spec fn may_stop(table: Table, ctx: Seq<TokenView>) -> bool {
    !table.contains_key(ctx) || count_in(table, ctx, TokenView::End) > 0
}

/// What every outcome of a walk from `ctx` satisfies: `r` is `out` followed by a walk, which
/// ended where it may stop, or at the largest length a vector can have.
pub open spec fn walk_result(table: Table, ctx: Seq<TokenView>, out: Seq<Seq<char>>, r: Seq<Seq<char>>) -> bool {
    &&& r.len() >= out.len()
    &&& r.subrange(0, out.len() as int) == out
    &&& is_walk(table, ctx, r.subrange(out.len() as int, r.len() as int))
    &&& (may_stop(table, walk_end(ctx, r.subrange(out.len() as int, r.len() as int))) || r.len()
        == usize::MAX)
}

proof fn lemma_prefix_total_bound(s: Seq<Transition>, n: int)
    requires
        0 <= n <= s.len(),
    ensures
        prefix_total(s, n) <= n * u64::MAX,
    decreases n,
{
    if n > 0 {
        lemma_prefix_total_bound(s, n - 1);
        assert(prefix_total(s, n) <= (n - 1) * u64::MAX + u64::MAX);
        assert((n - 1) * u64::MAX + u64::MAX == n * u64::MAX) by (nonlinear_arith);
    }
}

proof fn lemma_prefix_total_fits(s: Seq<Transition>, n: int)
    requires
        0 <= n <= s.len(),
        s.len() <= usize::MAX,
    ensures
        prefix_total(s, n) <= u128::MAX,
{
    lemma_prefix_total_bound(s, n);
    assert(n * u64::MAX <= usize::MAX * u64::MAX) by (nonlinear_arith)
        requires
            0 <= n <= usize::MAX,
    ;
}

/// The sum of all counts of `nexts`.
pub fn total_count(nexts: &Vec<Transition>) -> (r: u128)
    ensures
        r == prefix_total(nexts@, nexts@.len() as int),
{
    let mut acc: u128 = 0;
    let mut j: usize = 0;
    while j < nexts.len()
        invariant
            j <= nexts@.len(),
            acc == prefix_total(nexts@, j as int),
        decreases nexts@.len() - j,
    {
        proof {
            lemma_prefix_total_fits(nexts@, j + 1);
        }
        acc = acc + nexts[j].count as u128;
        j = j + 1;
    }
    acc
}

/// The transition that `draw` selects when each transition owns as many consecutive values as
/// its count: the one whose running total first exceeds `draw`. Each is thus chosen with
/// probability proportional to its count when `draw` is uniform below the total.
pub fn pick(nexts: &Vec<Transition>, draw: u128) -> (r: usize)
    requires
        draw < prefix_total(nexts@, nexts@.len() as int),
    ensures
        r < nexts@.len(),
        prefix_total(nexts@, r as int) <= draw < prefix_total(nexts@, r + 1),
{
    let mut acc: u128 = 0;
    let mut j: usize = 0;
    while j < nexts.len()
        invariant
            j <= nexts@.len(),
            acc == prefix_total(nexts@, j as int),
            acc <= draw,
            draw < prefix_total(nexts@, nexts@.len() as int),
        decreases nexts@.len() - j,
    {
        proof {
            lemma_prefix_total_fits(nexts@, j + 1);
        }
        let next = acc + nexts[j].count as u128;
        if draw < next {
            return j;
        }
        acc = next;
        j = j + 1;
    }
    j
}

/// Relies on `rand::thread_rng` and `rand::Rng::gen_range`: a value drawn from `0..bound`; the
/// call panics only on an empty range.
#[verifier::external_body]
fn draw_below(bound: u128) -> (r: u128)
    requires
        bound > 0,
    ensures
        r < bound,
{
    rand::Rng::gen_range(&mut rand::thread_rng(), 0..bound)
}

proof fn lemma_walk_push(table: Table, ctx: Seq<TokenView>, out: Seq<Seq<char>>, w: Seq<char>)
    requires
        is_walk(table, ctx, out),
        count_in(table, walk_end(ctx, out), TokenView::Word(w)) > 0,
    ensures
        is_walk(table, ctx, out.push(w)),
        walk_end(ctx, out.push(w)) == shift(walk_end(ctx, out), TokenView::Word(w)),
{
    assert(out.push(w).drop_last() =~= out);
}

impl Chain {
    /// Continues a walk from window `ctx` after the words `out`, drawing each next token in
    /// proportion to its count, until the end marker is drawn or the window has no transition.
    fn walk(&self, ctx: Vec<Token>, out: Vec<String>) -> (r: Vec<String>)
        requires
            self.wf(),
            ctx@.len() == self.order,
        ensures
            walk_result(self@.table, tokens_view(ctx@), strings_view(out@), strings_view(r@)),
    {
        let ghost table = self@.table;
        let ghost c0 = tokens_view(ctx@);
        let ghost out0 = out@;
        let ghost base = out@.len() as int;
        let mut ctx = ctx;
        let mut out = out;
        let mut done = false;
        assert(strings_view(out@).subrange(base, base) =~= Seq::<Seq<char>>::empty());
        assert(out@.subrange(0, base) =~= out0);
        while !done && out.len() < usize::MAX
            invariant
                self.wf(),
                table == self@.table,
                ctx@.len() == self.order,
                base == out0.len(),
                out@.len() >= base,
                out@.subrange(0, base) == out0,
                is_walk(table, c0, strings_view(out@).subrange(base, out@.len() as int)),
                tokens_view(ctx@) == walk_end(c0, strings_view(out@).subrange(base, out@.len() as int)),
                done ==> may_stop(table, tokens_view(ctx@)),
            decreases usize::MAX - out@.len(), if done { 0int } else { 1int },
        {
            match self.find_entry(&ctx) {
                None => {
                    done = true;
                },
                Some(i) => {
                    let e = &self.entries[i];
                    proof {
                        assert(entry_wf(self.entries@[i as int], self.order as nat));
                        lemma_assoc_index(entries_view(self.entries@), i as int);
                        lemma_prefix_total_bound(e.nexts@, 1);
                        assert(prefix_total(e.nexts@, 1) >= 1);
                        lemma_prefix_monotone(e.nexts@, 1, e.nexts@.len() as int);
                    }
                    let total = total_count(&e.nexts);
                    let draw = draw_below(total);
                    let j = pick(&e.nexts, draw);
                    proof {
                        lemma_assoc_index(nexts_view(e.nexts@), j as int);
                        assert(e.nexts@[j as int].count >= 1);
                    }
                    match &e.nexts[j].token {
                        Token::Word(w) => {
                            let ghost sv = strings_view(out@).subrange(base, out@.len() as int);
                            let ghost cv = tokens_view(ctx@);
                            proof {
                                lemma_walk_push(table, c0, sv, w@);
                            }
                            let ghost before = out@;
                            let wc = w.clone();
                            out.push(wc);
                            assert(strings_view(out@) =~= strings_view(before).push(w@));
                            assert(strings_view(out@).subrange(base, out@.len() as int) =~= sv.push(w@));
                            assert(out@.subrange(0, base) =~= out0);
                            if ctx.len() > 0 {
                                ctx.remove(0);
                                ctx.push(Token::Word(w.clone()));
                                assert(tokens_view(ctx@) =~= cv.drop_first().push(TokenView::Word(w@)));
                            }
                        },
                        _ => {
                            done = true;
                        },
                    }
                },
            }
        }
        assert(strings_view(out@).subrange(0, base) =~= strings_view(out0));
        out
    }
}

/// Words joined with single spaces between them.
pub open spec fn joined(ws: Seq<Seq<char>>) -> Seq<char>
    decreases ws.len(),
{
    if ws.len() == 0 {
        Seq::empty()
    } else if ws.len() == 1 {
        ws[0]
    } else {
        joined(ws.drop_last()) + seq![' '] + ws.last()
    }
}

/// The words joined with single spaces between them.
pub fn join_words(words: &Vec<String>) -> (r: String)
    ensures
        r@ == joined(strings_view(words@)),
{
    let mut r = String::new();
    let mut i: usize = 0;
    while i < words.len()
        invariant
            i <= words@.len(),
            r@ == joined(strings_view(words@.subrange(0, i as int))),
        decreases words@.len() - i,
    {
        let ghost prev = strings_view(words@.subrange(0, i as int));
        let ghost next = strings_view(words@.subrange(0, i + 1));
        assert(next =~= prev.push(words@[i as int]@));
        assert(next.drop_last() =~= prev);
        if i > 0 {
            r.append(" ");
            proof {
                reveal_strlit(" ");
            }
        }
        r.append(words[i].as_str());
        proof {
            if i == 0 {
                assert(r@ =~= next[0]);
            } else {
                assert(r@ =~= joined(prev) + seq![' '] + next.last());
            }
        }
        i = i + 1;
    }
    assert(words@.subrange(0, words@.len() as int) =~= words@);
    r
}

impl Chain {
    /// A random sequence: a walk from the start window, emitting each word drawn, until the
    /// end marker is drawn or the window has no transition. `None` when the chain is empty.
    pub fn generate(&self) -> (r: Option<Vec<String>>)
        requires
            self.wf(),
        ensures
            r is None <==> self@.table.dom() == Set::<Seq<TokenView>>::empty(),
            r matches Some(v) ==> walk_result(
                self@.table,
                start_context(self@.order),
                Seq::empty(),
                strings_view(v@),
            ),
    {
        if self.is_empty() {
            return None;
        }
        let ctx = start_window(self.order);
        let out: Vec<String> = Vec::new();
        proof {
            assert(ctx@.len() == tokens_view(ctx@).len());
            assert(strings_view(out@) =~= Seq::<Seq<char>>::empty());
        }
        Some(self.walk(ctx, out))
    }

    /// Like `generate`, with the words joined by single spaces.
    pub fn generate_str(&self) -> (r: Option<String>)
        requires
            self.wf(),
        ensures
            r is None <==> self@.table.dom() == Set::<Seq<TokenView>>::empty(),
            r matches Some(s) ==> exists|v: Seq<Seq<char>>|
                walk_result(self@.table, start_context(self@.order), Seq::empty(), v) && s@
                    == joined(v),
    {
        match self.generate() {
            None => None,
            Some(v) => {
                let s = join_words(&v);
                assert(walk_result(self@.table, start_context(self@.order), Seq::empty(), strings_view(v@)));
                Some(s)
            },
        }
    }

    /// A walk that begins as if `seed` had just been emitted: the result is `seed` followed by
    /// a walk from the start window shifted by `seed`. It is attempted on an empty chain too.
    pub fn generate_from_token(&self, seed: String) -> (r: Vec<String>)
        requires
            self.wf(),
        ensures
            walk_result(
                self@.table,
                shift(start_context(self@.order), TokenView::Word(seed@)),
                seq![seed@],
                strings_view(r@),
            ),
    {
        let ghost sv = seed@;
        let mut ctx = start_window(self.order);
        let ghost cv = tokens_view(ctx@);
        assert(ctx@.len() == cv.len());
        if ctx.len() > 0 {
            ctx.remove(0);
            ctx.push(Token::Word(seed.clone()));
            assert(tokens_view(ctx@) =~= cv.drop_first().push(TokenView::Word(sv)));
        }
        let mut out: Vec<String> = Vec::new();
        out.push(seed);
        assert(strings_view(out@) =~= seq![sv]);
        self.walk(ctx, out)
    }
}

proof fn lemma_prefix_monotone(s: Seq<Transition>, a: int, b: int)
    requires
        0 <= a <= b <= s.len(),
    ensures
        prefix_total(s, a) <= prefix_total(s, b),
    decreases b - a,
{
    if a < b {
        lemma_prefix_monotone(s, a, b - 1);
    }
}

} // verus!
