//! The binary form of a chain. All integers are little-endian.
//!
//! order (u64), number of windows (u64), then for each window: its tokens, the number of its
//! next tokens (u64), and each next token followed by its count (u64). A token is a tag byte:
//! 0 for the start marker, 1 for the end marker, 2 for a word, which is followed by its number
//! of characters (u64) and each character's scalar value (u32).
use vstd::prelude::*;
use crate::chain::{entries_view, entry_view, entry_wf, find_next, nexts_view, Chain, Entry, Transition};
use crate::assoc::keys_distinct;
use crate::token::{tokens_view, Token, TokenView};

verus! {

/// The pieces `f` gives for each element, one after the other.
pub open spec fn concat_map<A>(s: Seq<A>, f: spec_fn(A) -> Seq<u8>) -> Seq<u8>
    decreases s.len(),
{
    if s.len() == 0 {
        Seq::empty()
    } else {
        f(s[0]) + concat_map(s.drop_first(), f)
    }
}

pub open spec fn u64_le(v: u64) -> Seq<u8> {
    seq![
        v as u8,
        (v >> 8u64) as u8,
        (v >> 16u64) as u8,
        (v >> 24u64) as u8,
        (v >> 32u64) as u8,
        (v >> 40u64) as u8,
        (v >> 48u64) as u8,
        (v >> 56u64) as u8,
    ]
}

pub open spec fn u32_le(v: u32) -> Seq<u8> {
    seq![v as u8, (v >> 8u32) as u8, (v >> 16u32) as u8, (v >> 24u32) as u8]
}

/// The scalar value of a character.
pub open spec fn scalar(c: char) -> u32 {
    c as u32
}

pub open spec fn char_bytes(c: char) -> Seq<u8> {
    u32_le(c as u32)
}

pub open spec fn word_bytes(w: Seq<char>) -> Seq<u8> {
    u64_le(w.len() as u64) + concat_map(w, |c: char| char_bytes(c))
}

pub open spec fn token_bytes(t: TokenView) -> Seq<u8> {
    match t {
        TokenView::Start => seq![0u8],
        TokenView::End => seq![1u8],
        TokenView::Word(w) => seq![2u8] + word_bytes(w),
    }
}

pub open spec fn transition_bytes(p: (TokenView, nat)) -> Seq<u8> {
    token_bytes(p.0) + u64_le(p.1 as u64)
}

/// A window with its next tokens and counts, in stored order.
pub type Listed = (Seq<TokenView>, Seq<(TokenView, nat)>);

pub open spec fn tokens_bytes(s: Seq<TokenView>) -> Seq<u8> {
    concat_map(s, |t: TokenView| token_bytes(t))
}

pub open spec fn nexts_bytes(s: Seq<(TokenView, nat)>) -> Seq<u8> {
    u64_le(s.len() as u64) + concat_map(s, |p: (TokenView, nat)| transition_bytes(p))
}

pub open spec fn entry_bytes(e: Listed) -> Seq<u8> {
    tokens_bytes(e.0) + nexts_bytes(e.1)
}

pub open spec fn entries_bytes(l: Seq<Listed>) -> Seq<u8> {
    concat_map(l, |e: Listed| entry_bytes(e))
}

/// The bytes of a chain of order `order` whose entries are `l`.
pub open spec fn chain_bytes(order: nat, l: Seq<Listed>) -> Seq<u8> {
    u64_le(order as u64) + u64_le(l.len() as u64) + entries_bytes(l)
}

/// The entries of a chain in stored order.
pub open spec fn listing(s: Seq<Entry>) -> Seq<Listed> {
    s.map_values(|e: Entry| (tokens_view(e.context@), nexts_view(e.nexts@)))
}

/// The bytes that `save` writes for `c`.
pub open spec fn saved(c: Chain) -> Seq<u8> {
    chain_bytes(c.order as nat, listing(c.entries@))
}

pub proof fn lemma_concat_map_push<A>(s: Seq<A>, a: A, f: spec_fn(A) -> Seq<u8>)
    ensures
        concat_map(s.push(a), f) == concat_map(s, f) + f(a),
    decreases s.len(),
{
    if s.len() == 0 {
        assert(s.push(a).drop_first() =~= Seq::<A>::empty());
        assert(s.push(a)[0] == a);
        assert(concat_map(Seq::<A>::empty(), f) =~= Seq::<u8>::empty());
        assert(concat_map(s.push(a), f) =~= f(a));
        assert(concat_map(s, f) + f(a) =~= f(a));
    } else {
        assert(s.push(a).drop_first() =~= s.drop_first().push(a));
        lemma_concat_map_push(s.drop_first(), a, f);
        assert(concat_map(s.push(a), f) =~= concat_map(s, f) + f(a));
    }
}

proof fn lemma_u64_le_bytes(v: u64)
    ensures
        v == (v as u8) as u64 | ((v >> 8u64) as u8 as u64) << 8u64 | ((v >> 16u64) as u8 as u64)
            << 16u64 | ((v >> 24u64) as u8 as u64) << 24u64 | ((v >> 32u64) as u8 as u64) << 32u64
            | ((v >> 40u64) as u8 as u64) << 40u64 | ((v >> 48u64) as u8 as u64) << 48u64 | ((v
            >> 56u64) as u8 as u64) << 56u64,
{
    assert(v == (v as u8) as u64 | ((v >> 8u64) as u8 as u64) << 8u64 | ((v >> 16u64) as u8 as u64)
        << 16u64 | ((v >> 24u64) as u8 as u64) << 24u64 | ((v >> 32u64) as u8 as u64) << 32u64 | ((v
        >> 40u64) as u8 as u64) << 40u64 | ((v >> 48u64) as u8 as u64) << 48u64 | ((v >> 56u64) as u8
        as u64) << 56u64) by (bit_vector);
}

proof fn lemma_u64_from_bytes(b0: u8, b1: u8, b2: u8, b3: u8, b4: u8, b5: u8, b6: u8, b7: u8)
    ensures
        ({
            let v = b0 as u64 | (b1 as u64) << 8u64 | (b2 as u64) << 16u64 | (b3 as u64) << 24u64
                | (b4 as u64) << 32u64 | (b5 as u64) << 40u64 | (b6 as u64) << 48u64 | (b7 as u64)
                << 56u64;
            v as u8 == b0 && (v >> 8u64) as u8 == b1 && (v >> 16u64) as u8 == b2 && (v >> 24u64) as u8
                == b3 && (v >> 32u64) as u8 == b4 && (v >> 40u64) as u8 == b5 && (v >> 48u64) as u8
                == b6 && (v >> 56u64) as u8 == b7
        }),
{
    let v = b0 as u64 | (b1 as u64) << 8u64 | (b2 as u64) << 16u64 | (b3 as u64) << 24u64 | (b4 as u64)
        << 32u64 | (b5 as u64) << 40u64 | (b6 as u64) << 48u64 | (b7 as u64) << 56u64;
    assert(v as u8 == b0 && (v >> 8u64) as u8 == b1 && (v >> 16u64) as u8 == b2 && (v >> 24u64) as u8
        == b3 && (v >> 32u64) as u8 == b4 && (v >> 40u64) as u8 == b5 && (v >> 48u64) as u8 == b6
        && (v >> 56u64) as u8 == b7) by (bit_vector)
        requires
            v == b0 as u64 | (b1 as u64) << 8u64 | (b2 as u64) << 16u64 | (b3 as u64) << 24u64 | (b4 as u64)
                << 32u64 | (b5 as u64) << 40u64 | (b6 as u64) << 48u64 | (b7 as u64) << 56u64,
    ;
}

proof fn lemma_u32_le_bytes(v: u32)
    ensures
        v == (v as u8) as u32 | ((v >> 8u32) as u8 as u32) << 8u32 | ((v >> 16u32) as u8 as u32)
            << 16u32 | ((v >> 24u32) as u8 as u32) << 24u32,
{
    assert(v == (v as u8) as u32 | ((v >> 8u32) as u8 as u32) << 8u32 | ((v >> 16u32) as u8 as u32)
        << 16u32 | ((v >> 24u32) as u8 as u32) << 24u32) by (bit_vector);
}

proof fn lemma_u32_from_bytes(b0: u8, b1: u8, b2: u8, b3: u8)
    ensures
        ({
            let v = b0 as u32 | (b1 as u32) << 8u32 | (b2 as u32) << 16u32 | (b3 as u32) << 24u32;
            v as u8 == b0 && (v >> 8u32) as u8 == b1 && (v >> 16u32) as u8 == b2 && (v >> 24u32) as u8
                == b3
        }),
{
    let v = b0 as u32 | (b1 as u32) << 8u32 | (b2 as u32) << 16u32 | (b3 as u32) << 24u32;
    assert(v as u8 == b0 && (v >> 8u32) as u8 == b1 && (v >> 16u32) as u8 == b2 && (v >> 24u32) as u8
        == b3) by (bit_vector)
        requires
            v == b0 as u32 | (b1 as u32) << 8u32 | (b2 as u32) << 16u32 | (b3 as u32) << 24u32,
    ;
}

fn write_u64(out: &mut Vec<u8>, v: u64)
    ensures
        final(out)@ == old(out)@ + u64_le(v),
{
    out.push(v as u8);
    out.push((v >> 8u64) as u8);
    out.push((v >> 16u64) as u8);
    out.push((v >> 24u64) as u8);
    out.push((v >> 32u64) as u8);
    out.push((v >> 40u64) as u8);
    out.push((v >> 48u64) as u8);
    out.push((v >> 56u64) as u8);
    assert(final(out)@ =~= old(out)@ + u64_le(v));
}

fn write_word(out: &mut Vec<u8>, w: &String)
    ensures
        final(out)@ == old(out)@ + word_bytes(w@),
{
    let n = w.as_str().unicode_len();
    write_u64(out, n as u64);
    let ghost start = out@;
    let mut i: usize = 0;
    while i < n
        invariant
            n == w@.len(),
            i <= n,
            out@ == start + concat_map(w@.subrange(0, i as int), |c: char| char_bytes(c)),
        decreases n - i,
    {
        let c = w.as_str().get_char(i);
        let v = c as u32;
        out.push(v as u8);
        out.push((v >> 8u32) as u8);
        out.push((v >> 16u32) as u8);
        out.push((v >> 24u32) as u8);
        proof {
            assert(w@.subrange(0, i + 1) =~= w@.subrange(0, i as int).push(c));
            lemma_concat_map_push(w@.subrange(0, i as int), c, |c: char| char_bytes(c));
            assert(out@ =~= start + concat_map(w@.subrange(0, i + 1), |c: char| char_bytes(c)));
        }
        i = i + 1;
    }
    assert(w@.subrange(0, n as int) =~= w@);
    assert(final(out)@ =~= old(out)@ + word_bytes(w@));
}

fn write_token(out: &mut Vec<u8>, t: &Token)
    ensures
        final(out)@ == old(out)@ + token_bytes(t@),
{
    match t {
        Token::Start => {
            out.push(0u8);
            assert(final(out)@ =~= old(out)@ + token_bytes(t@));
        },
        Token::End => {
            out.push(1u8);
            assert(final(out)@ =~= old(out)@ + token_bytes(t@));
        },
        Token::Word(w) => {
            out.push(2u8);
            write_word(out, w);
            assert(final(out)@ =~= old(out)@ + token_bytes(t@));
        },
    }
}

fn write_entry(out: &mut Vec<u8>, e: &Entry)
    ensures
        final(out)@ == old(out)@ + entry_bytes((tokens_view(e.context@), nexts_view(e.nexts@))),
{
    let ghost start = out@;
    let ghost ctx = tokens_view(e.context@);
    let mut i: usize = 0;
    while i < e.context.len()
        invariant
            i <= e.context@.len(),
            ctx == tokens_view(e.context@),
            out@ == start + concat_map(ctx.subrange(0, i as int), |t: TokenView| token_bytes(t)),
        decreases e.context@.len() - i,
    {
        write_token(out, &e.context[i]);
        proof {
            assert(ctx.subrange(0, i + 1) =~= ctx.subrange(0, i as int).push(e.context@[i as int]@));
            lemma_concat_map_push(ctx.subrange(0, i as int), e.context@[i as int]@, |t: TokenView| token_bytes(t));
            assert(out@ =~= start + concat_map(ctx.subrange(0, i + 1), |t: TokenView| token_bytes(t)));
        }
        i = i + 1;
    }
    assert(ctx.subrange(0, ctx.len() as int) =~= ctx);
    write_u64(out, e.nexts.len() as u64);
    let ghost mid = out@;
    let ghost nv = nexts_view(e.nexts@);
    let mut j: usize = 0;
    while j < e.nexts.len()
        invariant
            j <= e.nexts@.len(),
            nv == nexts_view(e.nexts@),
            out@ == mid + concat_map(nv.subrange(0, j as int), |p: (TokenView, nat)| transition_bytes(p)),
        decreases e.nexts@.len() - j,
    {
        write_token(out, &e.nexts[j].token);
        write_u64(out, e.nexts[j].count);
        proof {
            assert(nv.subrange(0, j + 1) =~= nv.subrange(0, j as int).push(nv[j as int]));
            lemma_concat_map_push(nv.subrange(0, j as int), nv[j as int], |p: (TokenView, nat)| transition_bytes(p));
            assert(out@ =~= mid + concat_map(nv.subrange(0, j + 1), |p: (TokenView, nat)| transition_bytes(p)));
        }
        j = j + 1;
    }
    assert(nv.subrange(0, nv.len() as int) =~= nv);
    assert(final(out)@ =~= old(out)@ + entry_bytes((ctx, nv)));
}

/// `e` stands in `b` from position `pos` on.
pub open spec fn starts_with(b: Seq<u8>, pos: int, e: Seq<u8>) -> bool {
    0 <= pos && pos + e.len() <= b.len() && b.subrange(pos, pos + e.len()) == e
}

proof fn lemma_starts_split(b: Seq<u8>, pos: int, x: Seq<u8>, y: Seq<u8>)
    requires
        starts_with(b, pos, x + y),
    ensures
        starts_with(b, pos, x),
        starts_with(b, pos + x.len(), y),
{
    let w = b.subrange(pos, pos + (x + y).len());
    assert(w == x + y);
    assert(b.subrange(pos, pos + x.len()) =~= w.subrange(0, x.len() as int));
    assert(w.subrange(0, x.len() as int) =~= x);
    assert(b.subrange(pos + x.len(), pos + x.len() + y.len()) =~= w.subrange(
        x.len() as int,
        (x.len() + y.len()) as int,
    ));
    assert(w.subrange(x.len() as int, (x.len() + y.len()) as int) =~= y);
}

proof fn lemma_starts_join(b: Seq<u8>, pos: int, x: Seq<u8>, y: Seq<u8>)
    requires
        starts_with(b, pos, x),
        starts_with(b, pos + x.len(), y),
    ensures
        starts_with(b, pos, x + y),
{
    assert(b.subrange(pos, pos + x.len() + y.len()) =~= x + y);
}

proof fn lemma_concat_map_uncons<A>(s: Seq<A>, i: int, f: spec_fn(A) -> Seq<u8>)
    requires
        0 <= i < s.len(),
    ensures
        concat_map(s.subrange(i, s.len() as int), f) == f(s[i]) + concat_map(
            s.subrange(i + 1, s.len() as int),
            f,
        ),
{
    assert(s.subrange(i, s.len() as int).drop_first() =~= s.subrange(i + 1, s.len() as int));
}

/// Relies on `char::from_u32`: the character whose scalar value is `v`, and `None` when no
/// character has that value.
#[verifier::external_body]
fn char_of(v: u32) -> (r: Option<char>)
    ensures
        r matches Some(c) ==> c as u32 == v,
        forall|d: char| #[trigger] scalar(d) == v ==> r == Some(d),
{
    char::from_u32(v)
}

/// Relies on `String::push`: appends one character.
#[verifier::external_body]
fn push_char(s: &mut String, c: char)
    ensures
        final(s)@ == old(s)@.push(c),
{
    s.push(c)
}

fn read_u64(b: &Vec<u8>, pos: usize) -> (r: Option<u64>)
    ensures
        r matches Some(v) ==> starts_with(b@, pos as int, u64_le(v)),
        forall|y: u64| #[trigger] starts_with(b@, pos as int, u64_le(y)) ==> r == Some(y),
{
    if pos > b.len() || b.len() - pos < 8 {
        return None;
    }
    let v = b[pos] as u64 | (b[pos + 1] as u64) << 8u64 | (b[pos + 2] as u64) << 16u64 | (b[pos
        + 3] as u64) << 24u64 | (b[pos + 4] as u64) << 32u64 | (b[pos + 5] as u64) << 40u64 | (b[pos
        + 6] as u64) << 48u64 | (b[pos + 7] as u64) << 56u64;
    proof {
        lemma_u64_from_bytes(
            b@[pos as int],
            b@[pos + 1],
            b@[pos + 2],
            b@[pos + 3],
            b@[pos + 4],
            b@[pos + 5],
            b@[pos + 6],
            b@[pos + 7],
        );
        assert(b@.subrange(pos as int, pos + 8) =~= u64_le(v));
        assert forall|y: u64| #[trigger] starts_with(b@, pos as int, u64_le(y)) implies Some(v)
            == Some(y) by {
            lemma_u64_le_bytes(y);
            assert(b@.subrange(pos as int, pos + 8)[0] == b@[pos as int]);
            assert(b@.subrange(pos as int, pos + 8)[1] == b@[pos + 1]);
            assert(b@.subrange(pos as int, pos + 8)[2] == b@[pos + 2]);
            assert(b@.subrange(pos as int, pos + 8)[3] == b@[pos + 3]);
            assert(b@.subrange(pos as int, pos + 8)[4] == b@[pos + 4]);
            assert(b@.subrange(pos as int, pos + 8)[5] == b@[pos + 5]);
            assert(b@.subrange(pos as int, pos + 8)[6] == b@[pos + 6]);
            assert(b@.subrange(pos as int, pos + 8)[7] == b@[pos + 7]);
        }
    }
    Some(v)
}

fn read_u32(b: &Vec<u8>, pos: usize) -> (r: Option<u32>)
    ensures
        r matches Some(v) ==> starts_with(b@, pos as int, u32_le(v)),
        forall|y: u32| #[trigger] starts_with(b@, pos as int, u32_le(y)) ==> r == Some(y),
{
    if pos > b.len() || b.len() - pos < 4 {
        return None;
    }
    let v = b[pos] as u32 | (b[pos + 1] as u32) << 8u32 | (b[pos + 2] as u32) << 16u32 | (b[pos
        + 3] as u32) << 24u32;
    proof {
        lemma_u32_from_bytes(b@[pos as int], b@[pos + 1], b@[pos + 2], b@[pos + 3]);
        assert(b@.subrange(pos as int, pos + 4) =~= u32_le(v));
        assert forall|y: u32| #[trigger] starts_with(b@, pos as int, u32_le(y)) implies Some(v)
            == Some(y) by {
            lemma_u32_le_bytes(y);
            assert(b@.subrange(pos as int, pos + 4)[0] == b@[pos as int]);
            assert(b@.subrange(pos as int, pos + 4)[1] == b@[pos + 1]);
            assert(b@.subrange(pos as int, pos + 4)[2] == b@[pos + 2]);
            assert(b@.subrange(pos as int, pos + 4)[3] == b@[pos + 3]);
        }
    }
    Some(v)
}

proof fn lemma_chars_len(w: Seq<char>)
    ensures
        concat_map(w, |c: char| char_bytes(c)).len() == 4 * w.len(),
    decreases w.len(),
{
    if w.len() > 0 {
        lemma_chars_len(w.drop_first());
    }
}

fn read_word(b: &Vec<u8>, pos: usize) -> (r: Option<(String, usize)>)
    ensures
        r matches Some((s, p)) ==> starts_with(b@, pos as int, word_bytes(s@)) && p == pos
            + word_bytes(s@).len(),
        forall|w: Seq<char>| #[trigger]
            starts_with(b@, pos as int, word_bytes(w)) ==> (r matches Some((s, p)) && s@ == w && p
                == pos + word_bytes(w).len()),
{
    let blen = b.len();
    let n = match read_u64(b, pos) {
        Some(n) => n,
        None => {
            proof {
                assert forall|w: Seq<char>| #[trigger] starts_with(b@, pos as int, word_bytes(w)) implies false by {
                    lemma_starts_split(b@, pos as int, u64_le(w.len() as u64), concat_map(w, |c: char| char_bytes(c)));
                }
            }
            return None;
        },
    };
    proof {
        assert forall|w: Seq<char>| #[trigger] starts_with(b@, pos as int, word_bytes(w)) implies w.len()
            == n && starts_with(b@, pos + 8, concat_map(w, |c: char| char_bytes(c))) by {
            lemma_starts_split(b@, pos as int, u64_le(w.len() as u64), concat_map(w, |c: char| char_bytes(c)));
            lemma_chars_len(w);
        }
    }
    let mut s = String::new();
    let mut p: usize = pos + 8;
    let mut i: u64 = 0;
    assert(s@ =~= Seq::<char>::empty());
    assert forall|w: Seq<char>| #[trigger] starts_with(b@, pos as int, word_bytes(w)) implies s@
        == w.subrange(0, 0) && w.subrange(0, w.len() as int) == w by {
        assert(w.subrange(0, 0) =~= Seq::<char>::empty());
        assert(w.subrange(0, w.len() as int) =~= w);
    }
    assert(b@.subrange(pos + 8, pos + 8) =~= Seq::<u8>::empty());
    while i < n
        invariant
            blen == b@.len(),
            i <= n,
            s@.len() == i,
            starts_with(b@, pos as int, u64_le(n)),
            starts_with(b@, pos + 8, concat_map(s@, |c: char| char_bytes(c))),
            p == pos + 8 + concat_map(s@, |c: char| char_bytes(c)).len(),
            forall|w: Seq<char>| #[trigger]
                starts_with(b@, pos as int, word_bytes(w)) ==> w.len() == n && s@ == w.subrange(
                    0,
                    i as int,
                ) && starts_with(b@, p as int, concat_map(w.subrange(i as int, w.len() as int), |c: char| char_bytes(c))),
        decreases n - i,
    {
        let rv = read_u32(b, p);
        let ghost prev = s@;
        proof {
            assert forall|w: Seq<char>| #[trigger] starts_with(b@, pos as int, word_bytes(w)) implies rv
                == Some(w[i as int] as u32) && starts_with(b@, p + 4, concat_map(w.subrange(i + 1, w.len() as int), |c: char| char_bytes(c))) by {
                lemma_concat_map_uncons(w, i as int, |c: char| char_bytes(c));
                lemma_starts_split(b@, p as int, char_bytes(w[i as int]), concat_map(w.subrange(i + 1, w.len() as int), |c: char| char_bytes(c)));
            }
        }
        let v = match rv {
            Some(v) => v,
            None => return None,
        };
        let c = match char_of(v) {
            Some(c) => c,
            None => {
                proof {
                    assert forall|w: Seq<char>| #[trigger] starts_with(b@, pos as int, word_bytes(w)) implies false by {
                        let x = w[i as int];
                        assert(scalar(x) == v);
                    }
                }
                return None;
            },
        };
        let ghost before = s@;
        push_char(&mut s, c);
        proof {
            lemma_concat_map_push(before, c, |c: char| char_bytes(c));
            lemma_starts_join(b@, pos + 8, concat_map(before, |c: char| char_bytes(c)), char_bytes(c));
            assert forall|w: Seq<char>| #[trigger] starts_with(b@, pos as int, word_bytes(w)) implies s@
                == w.subrange(0, i + 1) by {
                assert(prev == w.subrange(0, i as int));
                assert(rv == Some(w[i as int] as u32));
                assert(scalar(w[i as int]) == v);
                assert(c == w[i as int]);
                assert(s@ == prev.push(c));
                assert(w.subrange(0, i + 1) =~= w.subrange(0, i as int).push(w[i as int]));
            }
        }
        p = p + 4;
        i = i + 1;
    }
    proof {
        lemma_starts_join(b@, pos as int, u64_le(n), concat_map(s@, |c: char| char_bytes(c)));
        assert forall|w: Seq<char>| #[trigger] starts_with(b@, pos as int, word_bytes(w)) implies s@ == w by {
            assert(w.subrange(0, w.len() as int) =~= w);
        }
    }
    Some((s, p))
}

fn read_token(b: &Vec<u8>, pos: usize) -> (r: Option<(Token, usize)>)
    ensures
        r matches Some((t, p)) ==> starts_with(b@, pos as int, token_bytes(t@)) && p == pos
            + token_bytes(t@).len(),
        forall|y: TokenView| #[trigger]
            starts_with(b@, pos as int, token_bytes(y)) ==> (r matches Some((t, p)) && t@ == y && p
                == pos + token_bytes(y).len()),
{
    proof {
        assert forall|y: TokenView| #[trigger] starts_with(b@, pos as int, token_bytes(y)) implies pos
            < b@.len() && b@[pos as int] == token_bytes(y)[0] by {
            assert(b@.subrange(pos as int, pos + token_bytes(y).len())[0] == b@[pos as int]);
        }
    }
    if pos >= b.len() {
        return None;
    }
    let tag = b[pos];
    if tag == 0u8 {
        assert(b@.subrange(pos as int, pos + 1) =~= seq![0u8]);
        Some((Token::Start, pos + 1))
    } else if tag == 1u8 {
        assert(b@.subrange(pos as int, pos + 1) =~= seq![1u8]);
        Some((Token::End, pos + 1))
    } else if tag == 2u8 {
        proof {
            assert forall|y: TokenView| #[trigger] starts_with(b@, pos as int, token_bytes(y)) implies (y
                matches TokenView::Word(w) && starts_with(b@, pos + 1, word_bytes(w))) by {
                if let TokenView::Word(w) = y {
                    lemma_starts_split(b@, pos as int, seq![2u8], word_bytes(w));
                }
            }
        }
        match read_word(b, pos + 1) {
            Some((w, p)) => {
                proof {
                    assert(b@.subrange(pos as int, pos + 1) =~= seq![2u8]);
                    lemma_starts_join(b@, pos as int, seq![2u8], word_bytes(w@));
                }
                Some((Token::Word(w), p))
            },
            None => None,
        }
    } else {
        None
    }
}

fn read_tokens(b: &Vec<u8>, pos: usize, n: usize) -> (r: Option<(Vec<Token>, usize)>)
    ensures
        r matches Some((v, p)) ==> v@.len() == n && starts_with(
            b@,
            pos as int,
            tokens_bytes(tokens_view(v@)),
        ) && p == pos + tokens_bytes(tokens_view(v@)).len(),
        forall|ys: Seq<TokenView>| #[trigger]
            starts_with(b@, pos as int, tokens_bytes(ys)) && ys.len() == n ==> (r matches Some((v, p))
                && tokens_view(v@) == ys && p == pos + tokens_bytes(ys).len()),
{
    if pos > b.len() {
        return None;
    }
    let mut v: Vec<Token> = Vec::new();
    let mut p: usize = pos;
    let mut i: usize = 0;
    assert(tokens_view(v@) =~= Seq::<TokenView>::empty());
    proof {
        assert forall|ys: Seq<TokenView>| #[trigger]
            starts_with(b@, pos as int, tokens_bytes(ys)) && ys.len() == n implies tokens_view(v@)
            == ys.subrange(0, 0) && ys.subrange(0, ys.len() as int) == ys by {
            assert(ys.subrange(0, 0) =~= Seq::<TokenView>::empty());
            assert(ys.subrange(0, ys.len() as int) =~= ys);
        }
        if pos <= b@.len() {
            assert(b@.subrange(pos as int, pos as int) =~= Seq::<u8>::empty());
        }
    }
    while i < n
        invariant
            i <= n,
            v@.len() == i,
            i > 0 ==> starts_with(b@, pos as int, tokens_bytes(tokens_view(v@))),
            p == pos + tokens_bytes(tokens_view(v@)).len(),
            pos <= b@.len() ==> starts_with(b@, pos as int, tokens_bytes(tokens_view(v@))),
            forall|ys: Seq<TokenView>| #[trigger]
                starts_with(b@, pos as int, tokens_bytes(ys)) && ys.len() == n ==> tokens_view(v@)
                    == ys.subrange(0, i as int) && starts_with(
                    b@,
                    p as int,
                    tokens_bytes(ys.subrange(i as int, ys.len() as int)),
                ),
        decreases n - i,
    {
        proof {
            assert forall|ys: Seq<TokenView>| #[trigger]
                starts_with(b@, pos as int, tokens_bytes(ys)) && ys.len() == n implies starts_with(
                b@,
                p as int,
                token_bytes(ys[i as int]),
            ) && starts_with(
                b@,
                p + token_bytes(ys[i as int]).len(),
                tokens_bytes(ys.subrange(i + 1, ys.len() as int)),
            ) by {
                lemma_concat_map_uncons(ys, i as int, |t: TokenView| token_bytes(t));
                lemma_starts_split(
                    b@,
                    p as int,
                    token_bytes(ys[i as int]),
                    tokens_bytes(ys.subrange(i + 1, ys.len() as int)),
                );
            }
        }
        let (t, q) = match read_token(b, p) {
            Some(x) => x,
            None => return None,
        };
        let ghost prev = v@;
        v.push(t);
        proof {
            crate::token::lemma_tokens_view_push(prev, t);
            lemma_concat_map_push(tokens_view(prev), t@, |t: TokenView| token_bytes(t));
            if i == 0 {
                assert(tokens_view(prev) =~= Seq::<TokenView>::empty());
                assert(tokens_bytes(tokens_view(v@)) =~= token_bytes(t@));
                assert(p == pos);
            } else {
                lemma_starts_join(b@, pos as int, tokens_bytes(tokens_view(prev)), token_bytes(t@));
            }
            assert forall|ys: Seq<TokenView>| #[trigger]
                starts_with(b@, pos as int, tokens_bytes(ys)) && ys.len() == n implies tokens_view(v@)
                == ys.subrange(0, i + 1) by {
                assert(ys.subrange(0, i + 1) =~= ys.subrange(0, i as int).push(ys[i as int]));
            }
        }
        p = q;
        i = i + 1;
    }
    proof {
        assert forall|ys: Seq<TokenView>| #[trigger]
            starts_with(b@, pos as int, tokens_bytes(ys)) && ys.len() == n implies tokens_view(v@) == ys by {
            assert(ys.subrange(0, ys.len() as int) =~= ys);
        }
    }
    Some((v, p))
}

proof fn lemma_concat_map_len_ge<A>(s: Seq<A>, f: spec_fn(A) -> Seq<u8>)
    requires
        forall|a: A| #[trigger] f(a).len() >= 1,
    ensures
        concat_map(s, f).len() >= s.len(),
    decreases s.len(),
{
    if s.len() > 0 {
        lemma_concat_map_len_ge(s.drop_first(), f);
        assert(f(s[0]).len() >= 1);
    }
}

proof fn lemma_token_bytes_nonempty()
    ensures
        forall|t: TokenView| #[trigger] token_bytes(t).len() >= 1,
{
}

/// The next tokens of a stored entry, as a list: at least one, no two alike, each counted at
/// least once and at most the largest `u64`, and none a start marker.
pub open spec fn listed_nexts_ok(ys: Seq<(TokenView, nat)>) -> bool {
    &&& ys.len() > 0
    &&& keys_distinct(ys)
    &&& forall|j: int|
        0 <= j < ys.len() ==> 1 <= #[trigger] ys[j].1 <= u64::MAX && ys[j].0 != TokenView::Start
}

fn read_nexts(b: &Vec<u8>, pos: usize) -> (r: Option<(Vec<Transition>, usize)>)
    ensures
        r matches Some((v, p)) ==> v@.len() > 0 && keys_distinct(nexts_view(v@)) && (forall|j: int|
            0 <= j < v@.len() ==> #[trigger] v@[j].count >= 1 && v@[j].token@ != TokenView::Start)
            && starts_with(b@, pos as int, nexts_bytes(nexts_view(v@))) && p == pos + nexts_bytes(
            nexts_view(v@),
        ).len(),
        forall|ys: Seq<(TokenView, nat)>| #[trigger]
            starts_with(b@, pos as int, nexts_bytes(ys)) && listed_nexts_ok(ys) ==> (r matches Some(
                (v, p),
            ) && nexts_view(v@) == ys && p == pos + nexts_bytes(ys).len()),
{
    let blen = b.len();
    proof {
        assert forall|ys: Seq<(TokenView, nat)>| #[trigger]
            starts_with(b@, pos as int, nexts_bytes(ys)) && listed_nexts_ok(ys) implies starts_with(
            b@,
            pos as int,
            u64_le(ys.len() as u64),
        ) && starts_with(
            b@,
            pos + 8,
            concat_map(ys, |p: (TokenView, nat)| transition_bytes(p)),
        ) && ys.len() < u64::MAX by {
            lemma_starts_split(
                b@,
                pos as int,
                u64_le(ys.len() as u64),
                concat_map(ys, |p: (TokenView, nat)| transition_bytes(p)),
            );
            lemma_token_bytes_nonempty();
            lemma_concat_map_len_ge(ys, |p: (TokenView, nat)| transition_bytes(p));
        }
    }
    let m = match read_u64(b, pos) {
        Some(m) => m,
        None => return None,
    };
    if m == 0 {
        return None;
    }
    let mut v: Vec<Transition> = Vec::new();
    let mut p: usize = pos + 8;
    let mut i: u64 = 0;
    proof {
        assert(nexts_view(v@) =~= Seq::<(TokenView, nat)>::empty());
        assert(b@.subrange(pos + 8, pos + 8) =~= Seq::<u8>::empty());
        assert forall|ys: Seq<(TokenView, nat)>| #[trigger]
            starts_with(b@, pos as int, nexts_bytes(ys)) && listed_nexts_ok(ys) implies nexts_view(v@)
            == ys.subrange(0, 0) && ys.subrange(0, ys.len() as int) == ys && ys.len() == m by {
            assert(ys.subrange(0, 0) =~= Seq::<(TokenView, nat)>::empty());
            assert(ys.subrange(0, ys.len() as int) =~= ys);
        }
    }
    while i < m
        invariant
            blen == b@.len(),
            0 < m,
            i <= m,
            v@.len() == i,
            starts_with(b@, pos as int, u64_le(m)),
            starts_with(b@, pos + 8, concat_map(nexts_view(v@), |p: (TokenView, nat)| transition_bytes(p))),
            p == pos + 8 + concat_map(nexts_view(v@), |p: (TokenView, nat)| transition_bytes(p)).len(),
            keys_distinct(nexts_view(v@)),
            forall|j: int|
                0 <= j < v@.len() ==> #[trigger] v@[j].count >= 1 && v@[j].token@ != TokenView::Start,
            forall|ys: Seq<(TokenView, nat)>| #[trigger]
                starts_with(b@, pos as int, nexts_bytes(ys)) && listed_nexts_ok(ys) ==> ys.len() == m
                    && nexts_view(v@) == ys.subrange(0, i as int) && starts_with(
                    b@,
                    p as int,
                    concat_map(ys.subrange(i as int, ys.len() as int), |p: (TokenView, nat)| transition_bytes(p)),
                ),
        decreases m - i,
    {
        proof {
            assert forall|ys: Seq<(TokenView, nat)>| #[trigger]
                starts_with(b@, pos as int, nexts_bytes(ys)) && listed_nexts_ok(ys) implies starts_with(
                b@,
                p as int,
                token_bytes(ys[i as int].0),
            ) && starts_with(
                b@,
                p + token_bytes(ys[i as int].0).len(),
                u64_le(ys[i as int].1 as u64),
            ) && starts_with(
                b@,
                p + transition_bytes(ys[i as int]).len(),
                concat_map(ys.subrange(i + 1, ys.len() as int), |p: (TokenView, nat)| transition_bytes(p)),
            ) by {
                lemma_concat_map_uncons(ys, i as int, |p: (TokenView, nat)| transition_bytes(p));
                lemma_starts_split(
                    b@,
                    p as int,
                    transition_bytes(ys[i as int]),
                    concat_map(ys.subrange(i + 1, ys.len() as int), |p: (TokenView, nat)| transition_bytes(p)),
                );
                lemma_starts_split(
                    b@,
                    p as int,
                    token_bytes(ys[i as int].0),
                    u64_le(ys[i as int].1 as u64),
                );
            }
        }
        let (t, q) = match read_token(b, p) {
            Some(x) => x,
            None => return None,
        };
        let c = match read_u64(b, q) {
            Some(c) => c,
            None => return None,
        };
        if matches!(t, Token::Start) || c == 0 {
            return None;
        }
        if let Some(k) = find_next(&v, &t) {
            proof {
                assert forall|ys: Seq<(TokenView, nat)>| #[trigger]
                    starts_with(b@, pos as int, nexts_bytes(ys)) && listed_nexts_ok(ys) implies false by {
                    assert(nexts_view(v@) == ys.subrange(0, i as int));
                    assert(nexts_view(v@)[k as int].0 == t@);
                    assert(t@ == ys[i as int].0);
                    assert(ys[k as int].0 == ys[i as int].0);
                }
            }
            return None;
        }
        let ghost prev = v@;
        let tr = Transition { token: t, count: c };
        v.push(tr);
        proof {
            let pv = nexts_view(prev);
            assert(nexts_view(v@) =~= pv.push((t@, c as nat)));
            crate::assoc::lemma_assoc_push(pv, t@, c as nat);
            lemma_concat_map_push(pv, (t@, c as nat), |p: (TokenView, nat)| transition_bytes(p));
            lemma_starts_join(b@, p as int, token_bytes(t@), u64_le(c));
            assert(transition_bytes((t@, c as nat)) == token_bytes(t@) + u64_le(c));
            lemma_starts_join(
                b@,
                pos + 8,
                concat_map(pv, |p: (TokenView, nat)| transition_bytes(p)),
                transition_bytes((t@, c as nat)),
            );
            assert forall|j: int| 0 <= j < v@.len() implies #[trigger] v@[j].count >= 1 && v@[j].token@
                != TokenView::Start by {
                if j < prev.len() {
                    assert(prev[j] == v@[j]);
                }
            }
            assert forall|ys: Seq<(TokenView, nat)>| #[trigger]
                starts_with(b@, pos as int, nexts_bytes(ys)) && listed_nexts_ok(ys) implies nexts_view(v@)
                == ys.subrange(0, i + 1) by {
                assert(ys.subrange(0, i + 1) =~= ys.subrange(0, i as int).push(ys[i as int]));
                assert(1 <= ys[i as int].1 <= u64::MAX);
            }
        }
        p = q + 8;
        i = i + 1;
    }
    proof {
        lemma_starts_join(b@, pos as int, u64_le(m), concat_map(nexts_view(v@), |p: (TokenView, nat)| transition_bytes(p)));
        assert(nexts_bytes(nexts_view(v@)) == u64_le(m) + concat_map(nexts_view(v@), |p: (TokenView, nat)| transition_bytes(p)));
        assert forall|ys: Seq<(TokenView, nat)>| #[trigger]
            starts_with(b@, pos as int, nexts_bytes(ys)) && listed_nexts_ok(ys) implies nexts_view(v@) == ys by {
            assert(ys.subrange(0, ys.len() as int) =~= ys);
        }
    }
    Some((v, p))
}

/// Why bytes could not be read back as a chain.
pub enum DecodeError {
    /// The bytes are not the binary form of any chain.
    Malformed,
}

proof fn lemma_listing_view(s1: Seq<Entry>, s2: Seq<Entry>)
    requires
        listing(s1) == listing(s2),
    ensures
        entries_view(s1) == entries_view(s2),
{
    assert(s1.len() == listing(s1).len());
    assert(s2.len() == listing(s2).len());
    assert forall|k: int| 0 <= k < s1.len() implies entries_view(s1)[k] == entries_view(s2)[k] by {
        assert(listing(s1)[k] == listing(s2)[k]);
    }
    assert(entries_view(s1) =~= entries_view(s2));
}

proof fn lemma_listed_entry(c: Chain, i: int)
    requires
        c.wf(),
        0 <= i < c.entries@.len(),
    ensures
        listing(c.entries@)[i].0.len() == c.order,
        listed_nexts_ok(listing(c.entries@)[i].1),
        listing(c.entries@)[i].0 == entries_view(c.entries@)[i].0,
{
    let e = c.entries@[i];
    assert(entry_wf(e, c.order as nat));
    let ys = nexts_view(e.nexts@);
    assert(listing(c.entries@)[i].1 == ys);
    assert forall|j: int| 0 <= j < ys.len() implies 1 <= #[trigger] ys[j].1 <= u64::MAX && ys[j].0
        != TokenView::Start by {
        assert(e.nexts@[j].count >= 1);
    }
}

impl Chain {
    /// Reads a chain back from its binary form. Fails exactly when the bytes are not the binary
    /// form of a well-formed chain; otherwise the result has the order and table of every chain
    /// that `save` writes as these bytes.
    pub fn load(bytes: &Vec<u8>) -> (r: Result<Chain, DecodeError>)
        ensures
            r matches Ok(d) ==> d.wf() && saved(d) == bytes@,
            forall|c: Chain| c.wf() && #[trigger] saved(c) == bytes@ ==> (r matches Ok(d) && d@ == c@),
    {
        let blen = bytes.len();
        proof {
            assert forall|c: Chain| c.wf() && #[trigger] saved(c) == bytes@ implies starts_with(
                bytes@,
                0,
                u64_le(c.order as u64),
            ) && starts_with(bytes@, 8, u64_le(c.entries@.len() as u64)) && starts_with(
                bytes@,
                16,
                entries_bytes(listing(c.entries@)),
            ) && bytes@.len() == 16 + entries_bytes(listing(c.entries@)).len() by {
                let l = listing(c.entries@);
                assert(bytes@.subrange(0, bytes@.len() as int) =~= bytes@);
                assert(starts_with(bytes@, 0, saved(c)));
                lemma_starts_split(bytes@, 0, u64_le(c.order as u64) + u64_le(l.len() as u64), entries_bytes(l));
                lemma_starts_split(bytes@, 0, u64_le(c.order as u64), u64_le(l.len() as u64));
            }
        }
        let order64 = match read_u64(bytes, 0) {
            Some(v) => v,
            None => return Err(DecodeError::Malformed),
        };
        if order64 > usize::MAX as u64 {
            return Err(DecodeError::Malformed);
        }
        let order = order64 as usize;
        let m = match read_u64(bytes, 8) {
            Some(v) => v,
            None => return Err(DecodeError::Malformed),
        };
        let mut chain = Chain { order, entries: Vec::new() };
        let mut p: usize = 16;
        let mut i: u64 = 0;
        proof {
            assert(listing(chain.entries@) =~= Seq::<Listed>::empty());
            assert(bytes@.subrange(16, 16) =~= Seq::<u8>::empty());
            assert(chain@.table =~= Map::empty());
            assert forall|c: Chain| c.wf() && #[trigger] saved(c) == bytes@ implies m == c.entries@.len()
                && order == c.order && listing(chain.entries@) == listing(c.entries@).subrange(0, 0)
                && listing(c.entries@).subrange(0, listing(c.entries@).len() as int) == listing(
                c.entries@,
            ) by {
                assert(listing(c.entries@).subrange(0, 0) =~= Seq::<Listed>::empty());
                assert forall|e: Listed| #[trigger] entry_bytes(e).len() >= 1 by {
                    assert(nexts_bytes(e.1).len() >= 8);
                }
                lemma_concat_map_len_ge(listing(c.entries@), |e: Listed| entry_bytes(e));
                assert(c.entries@.len() == listing(c.entries@).len());
                assert(listing(c.entries@).subrange(0, listing(c.entries@).len() as int) =~= listing(
                    c.entries@,
                ));
            }
        }
        while i < m
            invariant
                blen == bytes@.len(),
                i <= m,
                chain.wf(),
                chain.order == order,
                order == order64,
                chain.entries@.len() == i,
                starts_with(bytes@, 0, u64_le(order64)),
                starts_with(bytes@, 8, u64_le(m)),
                starts_with(bytes@, 16, entries_bytes(listing(chain.entries@))),
                p == 16 + entries_bytes(listing(chain.entries@)).len(),
                forall|c: Chain| c.wf() && #[trigger] saved(c) == bytes@ ==> m == c.entries@.len()
                    && order == c.order && listing(chain.entries@) == listing(c.entries@).subrange(
                    0,
                    i as int,
                ) && starts_with(
                    bytes@,
                    p as int,
                    entries_bytes(listing(c.entries@).subrange(i as int, c.entries@.len() as int)),
                ) && bytes@.len() == p + entries_bytes(
                    listing(c.entries@).subrange(i as int, c.entries@.len() as int),
                ).len(),
            decreases m - i,
        {
            proof {
                assert forall|c: Chain| c.wf() && #[trigger] saved(c) == bytes@ implies ({
                    let l = listing(c.entries@);
                    &&& starts_with(bytes@, p as int, tokens_bytes(l[i as int].0))
                    &&& l[i as int].0.len() == order
                    &&& starts_with(
                        bytes@,
                        p + tokens_bytes(l[i as int].0).len(),
                        nexts_bytes(l[i as int].1),
                    )
                    &&& listed_nexts_ok(l[i as int].1)
                    &&& starts_with(
                        bytes@,
                        p + entry_bytes(l[i as int]).len(),
                        entries_bytes(l.subrange(i + 1, l.len() as int)),
                    )
                    &&& bytes@.len() == p + entry_bytes(l[i as int]).len() + entries_bytes(
                        l.subrange(i + 1, l.len() as int),
                    ).len()
                }) by {
                    let l = listing(c.entries@);
                    lemma_concat_map_uncons(l, i as int, |e: Listed| entry_bytes(e));
                    lemma_starts_split(
                        bytes@,
                        p as int,
                        entry_bytes(l[i as int]),
                        entries_bytes(l.subrange(i + 1, l.len() as int)),
                    );
                    lemma_starts_split(
                        bytes@,
                        p as int,
                        tokens_bytes(l[i as int].0),
                        nexts_bytes(l[i as int].1),
                    );
                    lemma_listed_entry(c, i as int);
                }
            }
            let (ctx, q) = match read_tokens(bytes, p, order) {
                Some(x) => x,
                None => return Err(DecodeError::Malformed),
            };
            let (nexts, q2) = match read_nexts(bytes, q) {
                Some(x) => x,
                None => return Err(DecodeError::Malformed),
            };
            if let Some(k) = chain.find_entry(&ctx) {
                proof {
                    assert forall|c: Chain| c.wf() && #[trigger] saved(c) == bytes@ implies false by {
                        let l = listing(c.entries@);
                        assert(listing(chain.entries@) == l.subrange(0, i as int));
                        assert(listing(chain.entries@)[k as int].0 == l[k as int].0);
                        lemma_listed_entry(c, k as int);
                        lemma_listed_entry(c, i as int);
                        assert(entries_view(c.entries@)[k as int].0 == entries_view(c.entries@)[i as int].0);
                    }
                }
                return Err(DecodeError::Malformed);
            }
            let e = Entry { context: ctx, nexts };
            let ghost prev = chain.entries@;
            proof {
                assert(e.context@.len() == tokens_view(e.context@).len());
                assert(entry_wf(e, order as nat));
            }
            chain.entries.push(e);
            proof {
                let ev = entry_view(e);
                assert(entries_view(chain.entries@) =~= entries_view(prev).push(ev));
                crate::assoc::lemma_assoc_push(entries_view(prev), ev.0, ev.1);
                assert forall|k: int| 0 <= k < chain.entries@.len() implies #[trigger] entry_wf(
                    chain.entries@[k],
                    chain.order as nat,
                ) by {
                    if k < prev.len() {
                        assert(chain.entries@[k] == prev[k]);
                    }
                }
                let le = (tokens_view(e.context@), nexts_view(e.nexts@));
                assert(listing(chain.entries@) =~= listing(prev).push(le));
                lemma_concat_map_push(listing(prev), le, |e: Listed| entry_bytes(e));
                lemma_starts_join(bytes@, p as int, tokens_bytes(le.0), nexts_bytes(le.1));
                lemma_starts_join(bytes@, 16, entries_bytes(listing(prev)), entry_bytes(le));
                assert forall|c: Chain| c.wf() && #[trigger] saved(c) == bytes@ implies listing(
                    chain.entries@,
                ) == listing(c.entries@).subrange(0, i + 1) by {
                    let l = listing(c.entries@);
                    assert(l.subrange(0, i + 1) =~= l.subrange(0, i as int).push(l[i as int]));
                }
            }
            p = q2;
            i = i + 1;
        }
        if p != bytes.len() {
            proof {
                assert forall|c: Chain| c.wf() && #[trigger] saved(c) == bytes@ implies false by {
                    let l = listing(c.entries@);
                    assert(l.subrange(i as int, l.len() as int) =~= Seq::<Listed>::empty());
                }
            }
            return Err(DecodeError::Malformed);
        }
        proof {
            let l = listing(chain.entries@);
            assert(l.len() == m);
            lemma_starts_join(bytes@, 0, u64_le(order64), u64_le(m));
            lemma_starts_join(bytes@, 0, u64_le(order64) + u64_le(m), entries_bytes(l));
            assert(bytes@.subrange(0, bytes@.len() as int) =~= bytes@);
            assert(saved(chain) == bytes@);
            assert forall|c: Chain| c.wf() && #[trigger] saved(c) == bytes@ implies chain@ == c@ by {
                let lc = listing(c.entries@);
                assert(lc.subrange(0, lc.len() as int) =~= lc);
                lemma_listing_view(chain.entries@, c.entries@);
            }
        }
        Ok(chain)
    }

    /// The binary form of the chain.
    pub fn save(&self) -> (r: Vec<u8>)
        ensures
            r@ == saved(*self),
    {
        let mut out: Vec<u8> = Vec::new();
        write_u64(&mut out, self.order as u64);
        write_u64(&mut out, self.entries.len() as u64);
        let ghost start = out@;
        let ghost l = listing(self.entries@);
        let mut i: usize = 0;
        while i < self.entries.len()
            invariant
                i <= self.entries@.len(),
                l == listing(self.entries@),
                out@ == start + concat_map(l.subrange(0, i as int), |e: Listed| entry_bytes(e)),
            decreases self.entries@.len() - i,
        {
            write_entry(&mut out, &self.entries[i]);
            proof {
                assert(l.subrange(0, i + 1) =~= l.subrange(0, i as int).push(l[i as int]));
                lemma_concat_map_push(l.subrange(0, i as int), l[i as int], |e: Listed| entry_bytes(e));
                assert(out@ =~= start + concat_map(l.subrange(0, i + 1), |e: Listed| entry_bytes(e)));
            }
            i = i + 1;
        }
        assert(l.subrange(0, l.len() as int) =~= l);
        assert(out@ =~= saved(*self));
        out
    }
}

} // verus!
