use markov::chain::Chain;
use markov::dict::Dict;

fn tokset_contains(ts: &markov::tokset::BufferTokSet, value: u32) -> bool {
    let mut i = 0;
    while i < ts.length() {
        if ts.get(i) == value {
            return true;
        }
        i += 1;
    }
    false
}

#[test]
fn interning_is_stable_and_injective() {
    let mut dict = Dict::new();
    let a1 = dict.tokid("alpha");
    let b1 = dict.tokid("beta");
    let a2 = dict.tokid("alpha");
    let b2 = dict.tokid("beta");
    assert_eq!(a1, a2);
    assert_eq!(b1, b2);
    assert_ne!(a1, b1);
    assert_eq!(Some(a1), dict.get_tokid("alpha"));
    assert_eq!(Some("alpha".to_string()), dict.entry(a1));
    assert_eq!(None, dict.get_tokid("gamma"));
}

#[test]
fn sentinel_is_identifier_zero() {
    let chain = Chain::new();
    assert_eq!(Some(0), chain.dict.get_tokid(""));
    assert_eq!(Some(String::new()), chain.dict.entry(0));
}

#[test]
fn ingest_records_forward_and_reverse() {
    let mut chain = Chain::new();
    chain.feed_str("a b c").unwrap();
    let a = chain.dict.get_tokid("a").unwrap();
    let b = chain.dict.get_tokid("b").unwrap();
    let c = chain.dict.get_tokid("c").unwrap();
    let ab = chain.paths.get((a, b)).expect("context (a, b) must be recorded");
    assert!(tokset_contains(&ab.forward, c));
    let bc = chain.paths.get((b, c)).expect("context (b, c) must be recorded");
    assert!(tokset_contains(&bc.reverse, a));
    let entry_a = chain.entries.get(a).expect("entry index for a");
    assert!(tokset_contains(entry_a, b));
}

#[test]
fn sizes_count_components() {
    let mut chain = Chain::new();
    assert_eq!((1, 0, 0), chain.sizes());
    chain.feed_str("a b c").unwrap();
    // dictionary: sentinel, a, b, c
    // contexts of [s s s a b c s s]: (s,s) (s,a) (a,b) (b,c) (c,s)
    // entry keys: second token of each window: s, s, a, b, c
    assert_eq!((4, 5, 4), chain.sizes());
}

#[test]
fn empty_line_is_a_no_op() {
    let mut chain = Chain::new();
    assert!(chain.feed_str("").is_ok());
    assert!(chain.feed_str("   \t  ").is_ok());
    assert_eq!((1, 0, 0), chain.sizes());
    assert!(chain.feed(Vec::new()).is_ok());
    assert_eq!((1, 0, 0), chain.sizes());
}

#[test]
fn generate_on_empty_chain_fails() {
    let chain = Chain::new();
    assert_eq!(None, chain.generate_best(20));
}

#[test]
fn generate_on_fed_chain_succeeds() {
    let mut chain = Chain::new();
    chain.feed_str("x y").unwrap();
    // The only recorded walk from the start context is "x y".
    assert_eq!(Some("x y".to_string()), chain.generate_best(2));
}

#[test]
fn unknown_seed_word_fails() {
    let mut chain = Chain::new();
    chain.feed_str("the cat sat on the mat").unwrap();
    assert_eq!(None, chain.generate_best_from("nonexistent-word".to_string(), 10));
}

#[test]
fn seed_echo_and_closed_vocabulary() {
    let mut chain = Chain::new();
    chain.feed_str("the cat sat on the mat").unwrap();
    let s = chain.generate_best_from("cat".to_string(), 3).expect("seed was ingested");
    let words: Vec<&str> = s.split_whitespace().collect();
    assert!(words.contains(&"cat"));
    for w in words {
        assert!(["the", "cat", "sat", "on", "mat"].contains(&w));
    }
}

#[test]
fn two_word_seed_is_echoed_contiguously() {
    let mut chain = Chain::new();
    chain.feed_str("one two three four").unwrap();
    let mut rng = markov::rng::new_rng();
    let v = chain.generate_one_from(&mut rng, "two three").expect("seed was ingested");
    let joined = v.join(" ");
    assert!(joined.contains("two three"));
}

#[test]
fn forward_walk_follows_recorded_path() {
    let mut chain = Chain::new();
    chain.feed_str("x y").unwrap();
    let mut rng = markov::rng::new_rng();
    let out = chain.generate_from_prefix(markov::paths::Direction::Forward, (0, 0), &mut rng);
    assert_eq!(vec!["x".to_string(), "y".to_string()], out);
    let unseen = chain.generate_from_prefix(markov::paths::Direction::Forward, (77, 78), &mut rng);
    assert!(unseen.is_empty());
}

#[test]
fn generate_one_requires_ingestion() {
    let chain = Chain::new();
    let mut rng = markov::rng::new_rng();
    assert!(chain.generate_one(&mut rng).is_none());
    let mut fed = Chain::new();
    fed.feed_str("x y").unwrap();
    assert_eq!(Some(vec!["x".to_string(), "y".to_string()]), fed.generate_one(&mut rng));
}

#[test]
fn seed_with_surrounding_whitespace() {
    let mut chain = Chain::new();
    chain.feed_str("the cat sat on the mat").unwrap();
    let s = chain.generate_best_from("  cat \t ".to_string(), 3);
    assert!(s.unwrap().contains("cat"));
}

#[test]
fn repeated_ingestion_accumulates() {
    let mut chain = Chain::new();
    chain.feed_str("x y").unwrap();
    chain.feed_str("x y").unwrap();
    assert_eq!((3, 4, 3), chain.sizes());
    assert_eq!(Some("x y".to_string()), chain.generate_best(2));
}

#[test]
fn choose_best_picks_closest_and_earliest() {
    let gens = vec![
        None,
        Some(vec!["a".to_string()]),
        Some(vec!["b".to_string(), "b".to_string(), "b".to_string()]),
        Some(vec!["c".to_string(), "c".to_string(), "c".to_string()]),
        None,
    ];
    let best = Chain::choose_best(gens, 3).unwrap();
    assert_eq!(vec!["b".to_string(), "b".to_string(), "b".to_string()], best);
    let none: Vec<Option<Vec<String>>> = vec![None, None];
    assert!(Chain::choose_best(none, 3).is_none());
}
