use pmpmc::order::precedes;
use pmpmc::OrderedStore;

#[test]
fn new_store_is_empty() {
    let mut store: OrderedStore<i32> = OrderedStore::new();
    assert!(store.is_empty());
    assert_eq!(store.extract_max(), None);
    assert_eq!(store.extract_min(), None);
    assert!(store.is_empty());
}

#[test]
fn insert_grows_by_one() {
    let mut store = OrderedStore::new();
    store.insert(4u8);
    assert!(!store.is_empty());
    store.insert(4u8);
    store.insert(1u8);
    assert_eq!(store.extract_max(), Some(4));
    assert_eq!(store.extract_min(), Some(1));
    assert!(!store.is_empty());
    assert_eq!(store.extract_min(), Some(4));
    assert!(store.is_empty());
    assert_eq!(store.extract_min(), None);
}

#[test]
fn many_items_leave_in_order() {
    let mut store = OrderedStore::new();
    let mut sent: Vec<(u32, u32)> = Vec::new();
    let mut x: u32 = 12345;
    for n in 0..2000u32 {
        x = x.wrapping_mul(1103515245).wrapping_add(12345);
        let key = (x >> 16) % 64;
        store.insert(Tagged { key, tag: char::from_u32(n + 32).unwrap() });
        sent.push((key, n + 32));
    }
    // ascending by key; among equal keys, by arrival
    sent.sort();
    let mut lo = 0usize;
    let mut hi = sent.len();
    let mut turn = 0u32;
    while lo < hi {
        turn += 1;
        if turn % 3 == 0 {
            let got = store.extract_min().unwrap();
            assert_eq!((got.key, got.tag as u32), sent[lo]);
            lo += 1;
        } else {
            let got = store.extract_max().unwrap();
            let top = sent[hi - 1].0;
            let mut first = hi - 1;
            while first > lo && sent[first - 1].0 == top {
                first -= 1;
            }
            assert_eq!((got.key, got.tag as u32), sent[first]);
            sent.remove(first);
            hi -= 1;
        }
    }
    assert!(store.is_empty());
    assert!(store.extract_max().is_none());
}

#[test]
fn ascending_arrivals_stay_shallow() {
    let mut store = OrderedStore::new();
    for n in 0..200_000u32 {
        store.insert(n);
    }
    for n in 0..100_000u32 {
        assert_eq!(store.extract_min(), Some(n));
        assert_eq!(store.extract_max(), Some(199_999 - n));
    }
    assert!(store.is_empty());
}

#[test]
fn drain_from_both_ends() {
    let mut store = OrderedStore::new();
    for x in [8, -3, 5, 5, 0, 12, -3] {
        store.insert(x);
    }
    assert_eq!(store.extract_max(), Some(12));
    assert_eq!(store.extract_min(), Some(-3));
    assert_eq!(store.extract_min(), Some(-3));
    assert_eq!(store.extract_max(), Some(8));
    assert_eq!(store.extract_max(), Some(5));
    assert_eq!(store.extract_min(), Some(0));
    assert_eq!(store.extract_min(), Some(5));
    assert_eq!(store.extract_max(), None);
}

#[test]
fn tied_items_keep_arrival_order() {
    let mut store: OrderedStore<Tagged> = OrderedStore::new();
    for (key, tag) in [(1, 'a'), (3, 'b'), (1, 'c'), (3, 'd'), (2, 'e'), (3, 'f'), (1, 'g')] {
        store.insert(Tagged { key, tag });
    }
    assert_eq!(store.extract_max().unwrap().tag, 'b');
    assert_eq!(store.extract_max().unwrap().tag, 'd');
    assert_eq!(store.extract_min().unwrap().tag, 'a');
    assert_eq!(store.extract_min().unwrap().tag, 'c');
    assert_eq!(store.extract_max().unwrap().tag, 'f');
    assert_eq!(store.extract_max().unwrap().tag, 'e');
    assert_eq!(store.extract_max().unwrap().tag, 'g');
    assert!(store.extract_min().is_none());
}

#[test]
fn precedes_is_less_or_equal() {
    assert!(precedes(&1, &2));
    assert!(precedes(&2, &2));
    assert!(!precedes(&3, &2));
}

struct Tagged {
    key: u32,
    tag: char,
}

impl PartialEq for Tagged {
    fn eq(&self, other: &Self) -> bool {
        self.key == other.key
    }
}

impl Eq for Tagged {}

impl PartialOrd for Tagged {
    fn partial_cmp(&self, other: &Self) -> Option<std::cmp::Ordering> {
        Some(self.cmp(other))
    }
}

impl Ord for Tagged {
    fn cmp(&self, other: &Self) -> std::cmp::Ordering {
        self.key.cmp(&other.key)
    }
}
