use markov::rng::new_rng;
use markov::tokset::BufferTokSet;
use markov::tokset::TokSet;

#[test]
fn small_values() {
    let mut tokset = BufferTokSet::new();
    tokset.add_entry(2);
    tokset.add_entry(7);
    tokset.add_entry(42);
    assert_eq!(2, tokset.get(0));
    assert_eq!(7, tokset.get(1));
    assert_eq!(42, tokset.get(2));
    assert_eq!(3, tokset.length());
}

#[test]
fn large_values() {
    let mut tokset = BufferTokSet::new();
    tokset.add_entry(0xFFFFF);
    tokset.add_entry(1);
    tokset.add_entry(0xFF + 1);
    tokset.add_entry(42);
    println!("{:?}", tokset);
    assert_eq!(0xFFFFF, tokset.get(3));
    assert_eq!(1, tokset.get(0));
    assert_eq!(42, tokset.get(1));
    assert_eq!(0xFF + 1, tokset.get(2));
    assert_eq!(4, tokset.length());
}

#[test]
fn overflow() {
    let mut tokset = BufferTokSet::new();
    for _ in 0..1000 {
        tokset.add_entry(0xFF + 1);
    }
    for _ in 0..1000 {
        tokset.add_entry(1);
    }
    assert_eq!(2000, tokset.length());
    for i in 0..1000 {
        assert_eq!(1, tokset.get(i));
    }
    for i in 1001..2000 {
        assert_eq!(0xFF + 1, tokset.get(i));
    }
}

#[test]
fn count_tracks_insertions() {
    let mut tokset = BufferTokSet::new();
    assert!(tokset.is_empty());
    assert_eq!(0, tokset.length());
    tokset.add_entry(5);
    tokset.add_entry(5);
    tokset.add_entry(5);
    tokset.add_entry(7);
    assert_eq!(4, tokset.length());
    assert!(!tokset.is_empty());
}

#[test]
fn sample_returns_only_inserted() {
    let mut tokset = BufferTokSet::new();
    tokset.add_entry(5);
    tokset.add_entry(5);
    tokset.add_entry(7);
    tokset.add_entry(0x1234);
    tokset.add_entry(0xABCDEF);
    let mut rng = new_rng();
    for _ in 0..200 {
        let v = tokset.sample(&mut rng);
        assert!(v == 5 || v == 7 || v == 0x1234 || v == 0xABCDEF);
    }
}

#[test]
fn small_id_after_many_large_ids() {
    let mut tokset = BufferTokSet::new();
    for _ in 0..1000 {
        tokset.add_entry(0x12345);
    }
    tokset.add_entry(3);
    assert_eq!(1001, tokset.length());
    assert_eq!(3, tokset.get(0));
    assert_eq!(0x12345, tokset.get(1));
    assert_eq!(0x12345, tokset.get(1000));
    tokset.add_entry(0x300);
    assert_eq!(3, tokset.get(0));
    assert_eq!(0x300, tokset.get(1));
    assert_eq!(0x12345, tokset.get(2));
}
