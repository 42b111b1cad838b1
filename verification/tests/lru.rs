use salsa::function::eviction_set::EvictionSet;
use salsa::function::lru::{set_capacity_locked, AutomaticLru, LruChoice, ManualLru, NoLru};
use salsa::Id;

fn id(index: u32) -> Id {
    Id::from_u32(index)
}

fn ids(indices: &[u32]) -> Vec<Id> {
    indices.iter().map(|index| id(*index)).collect()
}

fn set_of(indices: &[u32]) -> EvictionSet {
    let mut set = EvictionSet::new();
    for index in indices {
        set.insert(id(*index));
    }
    set
}

fn evicted_now<L: LruChoice>(lru: &L) -> Vec<Id> {
    let mut evicted = Vec::new();
    lru.to_be_evicted(|id| evicted.push(id));
    evicted
}

#[test]
fn set_orders_by_last_use() {
    let mut set = EvictionSet::new();
    assert_eq!(set.len(), 0);
    assert!(set.insert(id(1)));
    assert!(set.insert(id(2)));
    assert!(set.insert(id(3)));
    assert_eq!(set.to_vec(), ids(&[1, 2, 3]));
    assert!(!set.insert(id(1)));
    assert_eq!(set.to_vec(), ids(&[2, 3, 1]));
    assert!(!set.insert(id(1)));
    assert_eq!(set.to_vec(), ids(&[2, 3, 1]));
    assert!(!set.insert(id(3)));
    assert_eq!(set.to_vec(), ids(&[2, 1, 3]));
    assert_eq!(set.len(), 3);
    assert!(set.contains(id(2)));
    assert!(!set.contains(id(4)));
}

#[test]
fn set_pops_least_recently_used() {
    let mut set = set_of(&[1, 2, 1]);
    assert_eq!(set.pop_front(), Some(id(2)));
    assert_eq!(set.pop_front(), Some(id(1)));
    assert_eq!(set.pop_front(), None);
    assert_eq!(set.len(), 0);
}

#[test]
fn set_clear_and_reserve() {
    let mut set = set_of(&[1, 2, 3]);
    set.reserve(100);
    assert_eq!(set.to_vec(), ids(&[1, 2, 3]));
    set.reserve(usize::MAX);
    assert_eq!(set.to_vec(), ids(&[1, 2, 3]));
    set.clear();
    assert_eq!(set.to_vec(), ids(&[]));
    assert!(set.insert(id(1)));
}

#[test]
fn no_lru_evicts_nothing() {
    let lru = NoLru::default();
    lru.set_capacity(1);
    assert_eq!(lru.record_use(id(1)), None);
    assert_eq!(lru.record_use(id(2)), None);
    assert_eq!(lru.record_use(id(3)), None);
    assert_eq!(evicted_now(&lru), ids(&[]));
}

#[test]
fn manual_evicts_only_when_asked() {
    let lru = ManualLru::default();
    lru.set_capacity(2);
    for index in [1, 2, 3, 4, 5] {
        assert_eq!(lru.record_use(id(index)), None);
    }
    assert_eq!(evicted_now(&lru), ids(&[1, 2, 3]));
    assert_eq!(evicted_now(&lru), ids(&[]));
    assert_eq!(lru.record_use(id(4)), None);
    assert_eq!(lru.record_use(id(6)), None);
    assert_eq!(evicted_now(&lru), ids(&[5]));
}

#[test]
fn manual_at_or_under_capacity_evicts_nothing() {
    let lru = ManualLru::default();
    lru.set_capacity(3);
    lru.record_use(id(1));
    lru.record_use(id(2));
    assert_eq!(evicted_now(&lru), ids(&[]));
    lru.record_use(id(3));
    assert_eq!(evicted_now(&lru), ids(&[]));
    lru.record_use(id(1));
    lru.record_use(id(4));
    assert_eq!(evicted_now(&lru), ids(&[2]));
}

#[test]
fn manual_capacity_zero_evicts_nothing() {
    let lru = ManualLru::default();
    for index in [1, 2, 3] {
        assert_eq!(lru.record_use(id(index)), None);
    }
    assert_eq!(evicted_now(&lru), ids(&[]));
    lru.set_capacity(1);
    for index in [1, 2, 3] {
        assert_eq!(lru.record_use(id(index)), None);
    }
    lru.set_capacity(0);
    assert_eq!(evicted_now(&lru), ids(&[]));
    lru.set_capacity(1);
    assert_eq!(evicted_now(&lru), ids(&[]));
}

#[test]
fn manual_evicts_least_recently_used_first() {
    let lru = ManualLru::default();
    lru.set_capacity(1);
    lru.record_use(id(1));
    lru.record_use(id(2));
    lru.record_use(id(1));
    lru.record_use(id(3));
    assert_eq!(evicted_now(&lru), ids(&[2, 1]));
}

#[test]
fn manual_locked_takes_the_excess() {
    let mut set = set_of(&[1, 2, 3, 4]);
    assert_eq!(ManualLru::to_be_evicted_locked(&mut set, 4), ids(&[]));
    assert_eq!(ManualLru::to_be_evicted_locked(&mut set, 0), ids(&[]));
    assert_eq!(ManualLru::to_be_evicted_locked(&mut set, 7), ids(&[]));
    assert_eq!(set.to_vec(), ids(&[1, 2, 3, 4]));
    assert_eq!(ManualLru::to_be_evicted_locked(&mut set, 3), ids(&[1]));
    assert_eq!(set.to_vec(), ids(&[2, 3, 4]));
    assert_eq!(ManualLru::to_be_evicted_locked(&mut set, 1), ids(&[2, 3]));
    assert_eq!(set.to_vec(), ids(&[4]));
}

#[test]
fn automatic_evicts_on_the_use_that_exceeds() {
    let lru = AutomaticLru::default();
    lru.set_capacity(2);
    assert_eq!(lru.record_use(id(1)), None);
    assert_eq!(lru.record_use(id(2)), None);
    assert_eq!(lru.record_use(id(1)), None);
    assert_eq!(lru.record_use(id(3)), Some(id(2)));
    assert_eq!(lru.record_use(id(1)), None);
    assert_eq!(lru.record_use(id(2)), Some(id(3)));
    assert_eq!(evicted_now(&lru), ids(&[]));
}

#[test]
fn automatic_with_capacity_one_keeps_the_last_used() {
    let lru = AutomaticLru::default();
    lru.set_capacity(1);
    assert_eq!(lru.record_use(id(1)), None);
    assert_eq!(lru.record_use(id(2)), Some(id(1)));
    assert_eq!(lru.record_use(id(1)), Some(id(2)));
    assert_eq!(lru.record_use(id(1)), None);
    assert_eq!(lru.record_use(id(3)), Some(id(1)));
}

#[test]
fn automatic_capacity_zero_never_evicts() {
    let lru = AutomaticLru::default();
    for index in [1, 2, 3, 1, 2, 3] {
        assert_eq!(lru.record_use(id(index)), None);
    }
    lru.set_capacity(0);
    for index in [1, 2, 3, 4] {
        assert_eq!(lru.record_use(id(index)), None);
    }
    assert_eq!(evicted_now(&lru), ids(&[]));
}

#[test]
fn automatic_capacity_zero_clears_what_was_tracked() {
    let lru = AutomaticLru::default();
    lru.set_capacity(2);
    assert_eq!(lru.record_use(id(1)), None);
    assert_eq!(lru.record_use(id(2)), None);
    lru.set_capacity(0);
    assert_eq!(lru.record_use(id(3)), None);
    lru.set_capacity(2);
    // nothing of before is tracked: two uses fit
    assert_eq!(lru.record_use(id(4)), None);
    assert_eq!(lru.record_use(id(5)), None);
    assert_eq!(lru.record_use(id(6)), Some(id(4)));
}

#[test]
fn automatic_resize_evicts_nothing_by_itself() {
    let lru = AutomaticLru::default();
    lru.set_capacity(3);
    for index in [1, 2, 3] {
        assert_eq!(lru.record_use(id(index)), None);
    }
    lru.set_capacity(1);
    assert_eq!(evicted_now(&lru), ids(&[]));
    // one identifier leaves with each use
    assert_eq!(lru.record_use(id(3)), Some(id(1)));
    assert_eq!(lru.record_use(id(3)), Some(id(2)));
    assert_eq!(lru.record_use(id(3)), None);
}

#[test]
fn automatic_stays_within_capacity() {
    let mut set = EvictionSet::new();
    for index in [5, 1, 5, 2, 3, 3, 4, 1, 5, 6, 7, 1] {
        let evicted = AutomaticLru::record_use_locked(&mut set, 3, id(index));
        assert!(set.len() <= 3);
        assert_ne!(evicted, Some(id(index)));
        assert!(set.contains(id(index)));
    }
    assert_eq!(set.to_vec(), ids(&[6, 7, 1]));
}

#[test]
fn automatic_locked_steps() {
    let mut set = EvictionSet::new();
    assert_eq!(AutomaticLru::record_use_locked(&mut set, 0, id(1)), None);
    assert_eq!(set.to_vec(), ids(&[]));
    assert_eq!(AutomaticLru::record_use_locked(&mut set, 2, id(1)), None);
    assert_eq!(AutomaticLru::record_use_locked(&mut set, 2, id(2)), None);
    assert_eq!(AutomaticLru::record_use_locked(&mut set, 2, id(1)), None);
    assert_eq!(set.to_vec(), ids(&[2, 1]));
    assert_eq!(AutomaticLru::record_use_locked(&mut set, 2, id(3)), Some(id(2)));
    assert_eq!(set.to_vec(), ids(&[1, 3]));
    assert_eq!(AutomaticLru::record_use_locked(&mut set, 0, id(4)), None);
    assert_eq!(set.to_vec(), ids(&[1, 3]));
    assert_eq!(AutomaticLru::record_use_locked(&mut set, usize::MAX, id(4)), None);
    assert_eq!(set.to_vec(), ids(&[1, 3, 4]));
}

#[test]
fn set_capacity_locked_clears_on_zero_only() {
    let mut set = set_of(&[1, 2, 3]);
    set_capacity_locked(&mut set, 1);
    assert_eq!(set.to_vec(), ids(&[1, 2, 3]));
    set_capacity_locked(&mut set, usize::MAX);
    assert_eq!(set.to_vec(), ids(&[1, 2, 3]));
    set_capacity_locked(&mut set, 0);
    assert_eq!(set.to_vec(), ids(&[]));
}

#[test]
fn policies_are_shared_by_reference() {
    let lru = AutomaticLru::default();
    let first = &lru;
    let second = &lru;
    first.set_capacity(1);
    assert_eq!(first.record_use(id(1)), None);
    assert_eq!(second.record_use(id(2)), Some(id(1)));
}
