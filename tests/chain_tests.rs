use markov_engine::chain::{Chain, Transition, DEFAULT_ORDER};
use markov_engine::codec::DecodeError;
use markov_engine::generate::{join_words, pick, total_count};
use markov_engine::token::Token;

fn words(ws: &[&str]) -> Vec<String> {
    ws.iter().map(|w| w.to_string()).collect()
}

fn ctx(ts: Vec<Token>) -> Vec<Token> {
    ts
}

fn w(s: &str) -> Token {
    Token::word(s)
}

#[test]
fn fresh_chains_are_empty() {
    let c = Chain::new();
    assert_eq!(c.order(), DEFAULT_ORDER);
    assert_eq!(c.order(), 2);
    assert!(c.is_empty());
    assert!(c.generate().is_none());
    assert!(c.generate_str().is_none());
    let c3 = Chain::of_order(3);
    assert_eq!(c3.order(), 3);
    assert!(c3.is_empty());
    assert!(c3.generate().is_none());
}

#[test]
fn feeding_makes_chain_non_empty() {
    for order in 1..4usize {
        let mut c = Chain::of_order(order);
        c.feed(&words(&["a", "b", "c"]));
        assert!(!c.is_empty());
    }
    let mut c = Chain::of_order(2);
    c.feed(&Vec::new());
    assert!(!c.is_empty());
}

#[test]
fn empty_feed_records_start_to_end() {
    let mut c = Chain::of_order(2);
    c.feed(&Vec::new());
    assert_eq!(c.count(&ctx(vec![Token::Start, Token::Start]), &Token::End), 1);
    assert_eq!(c.generate(), Some(Vec::new()));
    assert_eq!(c.generate_str(), Some(String::new()));
}

#[test]
fn order_one_alternating_scenario() {
    let mut c = Chain::of_order(1);
    c.feed(&words(&["a", "b", "a", "b"]));
    assert_eq!(c.count(&ctx(vec![Token::Start]), &w("a")), 1);
    assert_eq!(c.count(&ctx(vec![w("a")]), &w("b")), 2);
    assert_eq!(c.count(&ctx(vec![w("b")]), &w("a")), 1);
    assert_eq!(c.count(&ctx(vec![w("b")]), &Token::End), 1);
    assert_eq!(c.count(&ctx(vec![w("a")]), &Token::End), 0);
    assert_eq!(c.count(&ctx(vec![Token::Start]), &w("b")), 0);
    for _ in 0..50 {
        let g = c.generate().unwrap();
        assert!(!g.is_empty());
        assert_eq!(g.len() % 2, 0);
        for (i, t) in g.iter().enumerate() {
            let expected = if i % 2 == 0 { "a" } else { "b" };
            assert_eq!(t, expected);
        }
    }
}

#[test]
fn feeding_twice_doubles_counts() {
    let seq = words(&["a", "b", "a", "b"]);
    let mut once = Chain::of_order(1);
    once.feed(&seq);
    let mut twice = Chain::of_order(1);
    twice.feed(&seq);
    twice.feed(&seq);
    let cases = vec![
        (vec![Token::Start], w("a")),
        (vec![w("a")], w("b")),
        (vec![w("b")], w("a")),
        (vec![w("b")], Token::End),
        (vec![w("a")], w("a")),
    ];
    for (k, t) in cases {
        assert_eq!(twice.count(&k, &t), 2 * once.count(&k, &t));
    }
    assert_eq!(twice.count(&ctx(vec![w("a")]), &w("b")), 4);
}

#[test]
fn feed_str_matches_feed() {
    let mut a = Chain::of_order(2);
    a.feed_str("x y z");
    let mut b = Chain::of_order(2);
    b.feed(&words(&["x", "y", "z"]));
    assert_eq!(a.save(), b.save());
    assert_eq!(a.count(&ctx(vec![Token::Start, Token::Start]), &w("x")), 1);
    assert_eq!(a.count(&ctx(vec![Token::Start, w("x")]), &w("y")), 1);
    assert_eq!(a.count(&ctx(vec![w("x"), w("y")]), &w("z")), 1);
    assert_eq!(a.count(&ctx(vec![w("y"), w("z")]), &Token::End), 1);
}

#[test]
fn feed_str_splits_on_any_whitespace() {
    let mut a = Chain::of_order(1);
    a.feed_str("  x\t y\n");
    let mut b = Chain::of_order(1);
    b.feed(&words(&["x", "y"]));
    assert_eq!(a.save(), b.save());
    assert_eq!(a.count(&ctx(vec![w("x")]), &w("y")), 1);
    assert_eq!(a.count(&ctx(vec![w("x y")]), &Token::End), 0);
}

#[test]
fn generate_from_token_starts_with_seed() {
    let mut c = Chain::of_order(2);
    c.feed(&words(&["x", "y", "z"]));
    // No window (start, z) was seen: the walk stops at once.
    assert_eq!(c.generate_from_token("z".to_string()), words(&["z"]));
    // (start, x) leads to y, then z, then the end.
    assert_eq!(c.generate_from_token("x".to_string()), words(&["x", "y", "z"]));
}

#[test]
fn generate_from_token_on_empty_chain() {
    let c = Chain::new();
    assert_eq!(c.generate_from_token("q".to_string()), words(&["q"]));
}

#[test]
fn generate_follows_single_path() {
    let mut c = Chain::of_order(2);
    c.feed(&words(&["the", "cat", "sat"]));
    assert_eq!(c.generate(), Some(words(&["the", "cat", "sat"])));
    assert_eq!(c.generate_str(), Some("the cat sat".to_string()));
}

#[test]
fn generation_terminates_on_cyclic_chain() {
    let mut c = Chain::of_order(1);
    c.feed(&words(&["a", "b", "a", "b", "a"]));
    for _ in 0..100 {
        let g = c.generate().unwrap();
        assert!(g.iter().all(|t| t == "a" || t == "b"));
    }
}

#[test]
fn save_load_round_trip() {
    let mut c = Chain::of_order(2);
    c.feed_str("the cat sat on the mat");
    c.feed_str("the dog sat");
    c.feed(&words(&["é", "日本", ""]));
    let bytes = c.save();
    let d = Chain::load(&bytes).ok().unwrap();
    assert_eq!(d.order(), 2);
    assert_eq!(d.save(), bytes);
    assert_eq!(d.count(&ctx(vec![Token::Start, Token::Start]), &w("the")), 2);
    assert_eq!(d.count(&ctx(vec![w("the"), w("cat")]), &w("sat")), 1);
    assert_eq!(d.count(&ctx(vec![w("é"), w("日本")]), &w("")), 1);
    assert_eq!(d.count(&ctx(vec![w("日本"), w("")]), &Token::End), 1);
}

#[test]
fn saved_bytes_layout() {
    let mut c = Chain::of_order(1);
    c.feed(&words(&["a"]));
    let mut expected: Vec<u8> = Vec::new();
    expected.extend_from_slice(&1u64.to_le_bytes());
    expected.extend_from_slice(&2u64.to_le_bytes());
    // (start) -> a : 1
    expected.push(0);
    expected.extend_from_slice(&1u64.to_le_bytes());
    expected.push(2);
    expected.extend_from_slice(&1u64.to_le_bytes());
    expected.extend_from_slice(&('a' as u32).to_le_bytes());
    expected.extend_from_slice(&1u64.to_le_bytes());
    // (a) -> end : 1
    expected.push(2);
    expected.extend_from_slice(&1u64.to_le_bytes());
    expected.extend_from_slice(&('a' as u32).to_le_bytes());
    expected.extend_from_slice(&1u64.to_le_bytes());
    expected.push(1);
    expected.extend_from_slice(&1u64.to_le_bytes());
    assert_eq!(c.save(), expected);
}

#[test]
fn empty_chain_round_trip() {
    let c = Chain::of_order(4);
    let bytes = c.save();
    assert_eq!(bytes.len(), 16);
    let d = Chain::load(&bytes).ok().unwrap();
    assert_eq!(d.order(), 4);
    assert!(d.is_empty());
}

#[test]
fn load_rejects_malformed_bytes() {
    let mut c = Chain::of_order(1);
    c.feed(&words(&["a"]));
    let bytes = c.save();
    // Truncated.
    let short = bytes[..bytes.len() - 1].to_vec();
    assert!(matches!(Chain::load(&short), Err(DecodeError::Malformed)));
    // Trailing bytes.
    let mut long = bytes.clone();
    long.push(0);
    assert!(matches!(Chain::load(&long), Err(DecodeError::Malformed)));
    // Unknown tag on the first window token.
    let mut bad_tag = bytes.clone();
    bad_tag[16] = 7;
    assert!(matches!(Chain::load(&bad_tag), Err(DecodeError::Malformed)));
    // A surrogate is no character.
    let mut bad_char = bytes.clone();
    bad_char[34..38].copy_from_slice(&0xD800u32.to_le_bytes());
    assert!(matches!(Chain::load(&bad_char), Err(DecodeError::Malformed)));
    // A zero count.
    let mut zero = bytes.clone();
    zero[38..46].copy_from_slice(&0u64.to_le_bytes());
    assert!(matches!(Chain::load(&zero), Err(DecodeError::Malformed)));
    // Nothing at all.
    assert!(matches!(Chain::load(&Vec::new()), Err(DecodeError::Malformed)));
}

#[test]
fn load_rejects_start_as_next_token() {
    let mut bytes: Vec<u8> = Vec::new();
    bytes.extend_from_slice(&1u64.to_le_bytes());
    bytes.extend_from_slice(&1u64.to_le_bytes());
    bytes.push(0);
    bytes.extend_from_slice(&1u64.to_le_bytes());
    bytes.push(0);
    bytes.extend_from_slice(&1u64.to_le_bytes());
    assert!(matches!(Chain::load(&bytes), Err(DecodeError::Malformed)));
    // The same with the end marker is a valid chain.
    let n = bytes.len();
    bytes[n - 9] = 1;
    let d = Chain::load(&bytes).ok().unwrap();
    assert_eq!(d.count(&ctx(vec![Token::Start]), &Token::End), 1);
}

#[test]
fn load_rejects_duplicate_windows() {
    let mut bytes: Vec<u8> = Vec::new();
    bytes.extend_from_slice(&1u64.to_le_bytes());
    bytes.extend_from_slice(&2u64.to_le_bytes());
    for _ in 0..2 {
        bytes.push(0);
        bytes.extend_from_slice(&1u64.to_le_bytes());
        bytes.push(1);
        bytes.extend_from_slice(&1u64.to_le_bytes());
    }
    assert!(matches!(Chain::load(&bytes), Err(DecodeError::Malformed)));
}

#[test]
fn join_words_uses_single_spaces() {
    assert_eq!(join_words(&words(&["a", "b", "c"])), "a b c");
    assert_eq!(join_words(&words(&["solo"])), "solo");
    assert_eq!(join_words(&Vec::new()), "");
}

#[test]
fn pick_selects_by_running_total() {
    let nexts = vec![
        Transition { token: w("a"), count: 2 },
        Transition { token: w("b"), count: 3 },
        Transition { token: Token::End, count: 1 },
    ];
    assert_eq!(total_count(&nexts), 6);
    assert_eq!(pick(&nexts, 0), 0);
    assert_eq!(pick(&nexts, 1), 0);
    assert_eq!(pick(&nexts, 2), 1);
    assert_eq!(pick(&nexts, 4), 1);
    assert_eq!(pick(&nexts, 5), 2);
}

#[test]
fn counts_saturate_at_largest_u64() {
    let mut bytes: Vec<u8> = Vec::new();
    bytes.extend_from_slice(&1u64.to_le_bytes());
    bytes.extend_from_slice(&1u64.to_le_bytes());
    bytes.push(0);
    bytes.extend_from_slice(&1u64.to_le_bytes());
    bytes.push(1);
    bytes.extend_from_slice(&u64::MAX.to_le_bytes());
    let mut c = Chain::load(&bytes).ok().unwrap();
    c.feed(&Vec::new());
    assert_eq!(c.count(&ctx(vec![Token::Start]), &Token::End), u64::MAX);
}
