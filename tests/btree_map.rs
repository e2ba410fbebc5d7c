use std::cell::Cell;

use rune_alloc::allocator::{AllocError, Allocator, Block, Layout};
use rune_alloc::entry::Entry;
use rune_alloc::map::BTreeMap;

/// Grants requests until the `fail_at`-th one since the last reset.
struct FailAt {
    calls: Cell<usize>,
    fail_at: Cell<usize>,
    released: Cell<usize>,
}

impl FailAt {
    fn new() -> FailAt {
        FailAt { calls: Cell::new(0), fail_at: Cell::new(0), released: Cell::new(0) }
    }

    fn arm(&self, n: usize) {
        self.calls.set(0);
        self.fail_at.set(n);
    }

    fn next(&self, layout: Layout) -> Result<Block, AllocError> {
        let n = self.calls.get() + 1;
        self.calls.set(n);
        if n == self.fail_at.get() {
            Err(AllocError { layout })
        } else {
            Ok(Block { addr: n * 64, layout })
        }
    }
}

impl Allocator for FailAt {
    fn grants_every_request(&self) -> bool {
        false
    }

    fn allocate(&self, layout: Layout) -> Result<Block, AllocError> {
        self.next(layout)
    }

    fn allocate_zeroed(&self, layout: Layout) -> Result<Block, AllocError> {
        self.next(layout)
    }

    fn grow(&self, _block: Block, _old: Layout, new_layout: Layout) -> Result<Block, AllocError> {
        self.next(new_layout)
    }

    fn shrink(&self, _block: Block, _old: Layout, new_layout: Layout) -> Result<Block, AllocError> {
        self.next(new_layout)
    }

    fn deallocate(&self, _block: Block, _layout: Layout) {
        self.released.set(self.released.get() + 1);
    }
}

fn pairs<A: Allocator>(m: &BTreeMap<u32, u32, A>) -> Vec<(u32, u32)> {
    m.iter().into_iter().map(|(k, v)| (*k, *v)).collect()
}

fn scrambled(n: u32) -> Vec<u32> {
    (0..n).map(|i| (i * 7919) % n).collect()
}

#[test]
fn insertions_keep_last_value_per_key() {
    let mut m: BTreeMap<u32, u32> = BTreeMap::new();
    let keys = scrambled(500);
    for &k in &keys {
        assert_eq!(m.try_insert(k, k + 1).unwrap(), None);
    }
    assert_eq!(m.len(), 500);
    for &k in &keys {
        assert_eq!(m.try_insert(k, k * 3).unwrap(), Some(k + 1));
    }
    assert_eq!(m.len(), 500);
    for k in 0..500 {
        assert_eq!(m.get(&k), Some(&(k * 3)));
    }
    assert_eq!(m.get(&500), None);
    assert!(!m.contains_key(&1000));
    assert!(m.contains_key(&499));
}

#[test]
fn insert_then_remove_restores_length() {
    let mut m: BTreeMap<u32, u32> = BTreeMap::new();
    for k in 0..100 {
        m.try_insert(k * 2, k).unwrap();
    }
    let before = pairs(&m);
    m.try_insert(51, 7).unwrap();
    assert_eq!(m.len(), 101);
    assert_eq!(m.remove(&51), Some(7));
    assert_eq!(m.len(), 100);
    assert!(pairs(&m).iter().all(|(k, _)| *k != 51));
    assert_eq!(pairs(&m), before);
}

#[test]
fn iteration_ascends_whatever_the_insertion_order() {
    let mut m: BTreeMap<u32, u32> = BTreeMap::new();
    for k in scrambled(1000) {
        m.try_insert(k, 0).unwrap();
    }
    let keys: Vec<u32> = pairs(&m).into_iter().map(|(k, _)| k).collect();
    assert_eq!(keys, (0..1000).collect::<Vec<u32>>());
    for k in (0..1000).rev() {
        m.try_insert(k, 1).unwrap();
    }
    let keys: Vec<u32> = pairs(&m).into_iter().map(|(k, _)| k).collect();
    assert!(keys.windows(2).all(|w| w[0] < w[1]));
}

#[test]
fn removal_in_any_order_rebalances() {
    let mut m: BTreeMap<u32, u32> = BTreeMap::new();
    for k in 0..700 {
        m.try_insert(k, k).unwrap();
    }
    let order = scrambled(700);
    for (n, &k) in order.iter().enumerate() {
        assert_eq!(m.remove_entry(&k), Some((k, k)));
        assert_eq!(m.len(), 700 - n - 1);
        assert_eq!(m.get(&k), None);
        if n % 50 == 0 {
            let keys: Vec<u32> = pairs(&m).into_iter().map(|(k, _)| k).collect();
            assert!(keys.windows(2).all(|w| w[0] < w[1]));
            assert_eq!(keys.len(), m.len());
        }
    }
    assert!(m.is_empty());
    assert!(pairs(&m).is_empty());
    m.try_insert(3, 4).unwrap();
    assert_eq!(pairs(&m), vec![(3, 4)]);
}

#[test]
fn or_insert_never_overwrites() {
    let mut m: BTreeMap<u32, u32> = BTreeMap::new();
    assert_eq!(*m.entry(5).or_try_insert(10).unwrap(), 10);
    assert_eq!(*m.entry(5).or_try_insert(20).unwrap(), 10);
    assert_eq!(m.get(&5), Some(&10));
    assert_eq!(m.len(), 1);
}

#[test]
fn and_modify_then_or_insert() {
    let mut m: BTreeMap<&str, u32> = BTreeMap::new();
    m.entry("x").and_modify(|e| *e += 1).or_try_insert(42).unwrap();
    assert_eq!(m.get(&"x"), Some(&42));
    assert_eq!(m.len(), 1);
    m.entry("x").and_modify(|e| *e += 1).or_try_insert(42).unwrap();
    assert_eq!(m.get(&"x"), Some(&43));
    assert_eq!(m.len(), 1);
}

/// Inserts `key`, first refusing the first, second, ... allocation until
/// the insertion goes through; every refused attempt must leave the map as
/// it was. Returns how many attempts were refused.
fn insert_through_refusals(m: &mut BTreeMap<u32, u32, &FailAt>, alloc: &FailAt, key: u32) -> usize {
    let mut n = 1;
    loop {
        let before = pairs(m);
        let len = m.len();
        alloc.arm(n);
        match m.try_insert(key, key / 2) {
            Ok(prev) => {
                assert_eq!(prev, None);
                assert_eq!(m.len(), len + 1);
                assert_eq!(m.get(&key), Some(&(key / 2)));
                return n - 1;
            }
            Err(e) => {
                assert!(e.layout.size > 0);
                assert_eq!(m.len(), len);
                assert_eq!(pairs(m), before);
                assert_eq!(m.get(&key), None);
            }
        }
        n += 1;
    }
}

#[test]
fn failed_allocation_leaves_map_unchanged() {
    let alloc = FailAt::new();
    let mut m: BTreeMap<u32, u32, &FailAt> = BTreeMap::new_in(&alloc);
    let mut most = 0;
    let mut refusals = 0;
    for k in 0..1500 {
        let r = insert_through_refusals(&mut m, &alloc, k * 2);
        refusals += r;
        most = std::cmp::max(most, r);
    }
    for k in scrambled(1500) {
        let r = insert_through_refusals(&mut m, &alloc, k * 2 + 1);
        refusals += r;
        most = std::cmp::max(most, r);
    }
    assert_eq!(m.len(), 3000);
    assert!(refusals > 100);
    assert!(most >= 3);
}

#[test]
fn failed_first_insertion_leaves_map_empty() {
    let alloc = FailAt::new();
    let mut m: BTreeMap<u32, u32, &FailAt> = BTreeMap::new_in(&alloc);
    alloc.arm(1);
    assert!(m.entry(1).or_try_insert(1).is_err());
    assert!(m.is_empty());
    alloc.arm(0);
    assert_eq!(*m.entry(1).or_try_insert(1).unwrap(), 1);
}

#[test]
fn merged_nodes_go_back_to_the_allocator() {
    let alloc = FailAt::new();
    let mut m: BTreeMap<u32, u32, &FailAt> = BTreeMap::new_in(&alloc);
    alloc.arm(0);
    for k in 0..300 {
        m.try_insert(k, k).unwrap();
    }
    let obtained = alloc.calls.get();
    for k in 0..300 {
        m.remove(&k);
    }
    assert!(m.is_empty());
    assert_eq!(alloc.released.get(), obtained);
}

#[test]
fn remove_entry_present_and_absent() {
    let mut m: BTreeMap<u32, u32> = BTreeMap::new();
    for k in 0..40 {
        m.try_insert(k, k + 100).unwrap();
    }
    assert_eq!(m.remove_entry(&17), Some((17, 117)));
    assert!(!m.contains_key(&17));
    assert_eq!(m.len(), 39);
    let before = pairs(&m);
    assert_eq!(m.remove_entry(&17), None);
    assert_eq!(m.remove(&1000), None);
    assert_eq!(pairs(&m), before);
}

#[test]
fn entry_scenario_with_string_keys() {
    let mut m: BTreeMap<&str, i32> = BTreeMap::new();
    assert_eq!(*m.entry("a").or_try_insert(1).unwrap(), 1);
    assert_eq!(m.len(), 1);
    assert_eq!(*m.entry("a").and_modify(|v| *v += 1).or_try_insert(99).unwrap(), 2);
    assert_eq!(m.len(), 1);
    m.entry("b").or_try_insert(5).unwrap();
    assert_eq!(m.len(), 2);
    assert_eq!(m.remove_entry(&"a"), Some(("a", 2)));
    assert_eq!(m.len(), 1);
    assert_eq!(m.get(&"b"), Some(&5));
}

#[test]
fn clear_releases_every_node() {
    let alloc = FailAt::new();
    let mut m: BTreeMap<u32, u32, &FailAt> = BTreeMap::new_in(&alloc);
    alloc.arm(0);
    for k in scrambled(400) {
        m.try_insert(k, k).unwrap();
    }
    let obtained = alloc.calls.get();
    assert!(obtained > 1);
    m.clear();
    assert!(m.is_empty());
    assert_eq!(m.len(), 0);
    assert!(pairs(&m).is_empty());
    assert_eq!(alloc.released.get(), obtained);
    m.try_insert(1, 2).unwrap();
    assert_eq!(pairs(&m), vec![(1, 2)]);
}

#[test]
fn empty_map_lookups() {
    let mut m: BTreeMap<u32, u32> = BTreeMap::new();
    assert_eq!(m.get(&0), None);
    assert!(!m.contains_key(&0));
    assert!(m.iter().is_empty());
    assert_eq!(m.remove(&0), None);
    assert!(m.is_empty());
}

#[test]
fn repeated_keys_count_once() {
    let mut m: BTreeMap<u32, u32> = BTreeMap::new();
    let ops = [(3, 1), (1, 1), (3, 2), (2, 5), (1, 7), (3, 9)];
    for (k, v) in ops {
        m.try_insert(k, v).unwrap();
    }
    assert_eq!(m.len(), 3);
    assert_eq!(pairs(&m), vec![(1, 7), (2, 5), (3, 9)]);
}

#[test]
fn insertion_into_a_leaf_with_room_asks_for_nothing() {
    let alloc = FailAt::new();
    let mut m: BTreeMap<u32, u32, &FailAt> = BTreeMap::new_in(&alloc);
    alloc.arm(0);
    m.try_insert(10, 1).unwrap();
    alloc.arm(1);
    assert_eq!(m.try_insert(20, 2), Ok(None));
    assert_eq!(*m.entry(5).or_try_insert(3).unwrap(), 3);
    assert_eq!(alloc.calls.get(), 0);
    assert_eq!(pairs(&m), vec![(5, 3), (10, 1), (20, 2)]);
}
