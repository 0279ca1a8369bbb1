use list_sets::fine_grained::FineGrainedListSet;
use list_sets::optimistic_fine_grained::OptimisticFineGrainedListSet;
use list_sets::SpinLock;
use std::collections::HashSet;

fn drain(set: &OptimisticFineGrainedListSet) -> Vec<Result<u64, ()>> {
    let mut it = set.iter();
    let mut out = Vec::new();
    while let Some(r) = it.next(set) {
        out.push(r);
    }
    out
}

/// A small deterministic generator for operation sequences.
struct Lcg(u64);

impl Lcg {
    fn next(&mut self) -> u64 {
        self.0 = self.0.wrapping_mul(6364136223846793005).wrapping_add(1442695040888963407);
        self.0 >> 33
    }
}

#[test]
fn iter_invalidate_deleted() {
    let mut set = OptimisticFineGrainedListSet::new();
    assert!(set.insert(1));
    assert!(set.insert(2));
    assert!(set.insert(3));

    let mut iter = set.iter();
    assert_eq!(iter.next(&set), Some(Ok(1)));

    assert!(set.remove(&1));
    assert!(set.remove(&2));

    assert_eq!(iter.next(&set), Some(Err(())));
}

#[test]
fn smoke() {
    let lock = SpinLock::default();
    assert_eq!(lock.try_lock(), Ok(()));
    assert_eq!(lock.try_lock(), Err(()));
    lock.unlock();
    assert_eq!(lock.try_lock(), Ok(()));
    lock.unlock();
    let other = SpinLock::new();
    assert_eq!(other.try_lock(), Ok(()));
    other.unlock();
}

#[test]
fn iter_invalidate_end() {
    let mut set = OptimisticFineGrainedListSet::new();
    assert!(set.insert(1));
    assert!(set.insert(2));
    let mut iter = set.iter();
    assert_eq!(iter.next(&set), Some(Ok(1)));
    assert_eq!(iter.next(&set), Some(Ok(2)));

    assert!(set.insert(3));

    assert_eq!(iter.next(&set), Some(Err(())));
}

#[test]
fn invalidated_iter_stays_ended() {
    let mut set = OptimisticFineGrainedListSet::new();
    for k in [5, 1, 9] {
        assert!(set.insert(k));
    }
    let mut iter = set.iter();
    assert_eq!(iter.next(&set), Some(Ok(1)));
    assert!(set.remove(&5));
    assert_eq!(iter.next(&set), Some(Err(())));
    assert_eq!(iter.next(&set), None);
    assert_eq!(iter.next(&set), None);
    assert!(set.insert(5));
    assert_eq!(iter.next(&set), None);
    let mut fresh = set.iter();
    assert_eq!(fresh.next(&set), Some(Ok(1)));
    assert_eq!(fresh.next(&set), Some(Ok(5)));
    assert_eq!(fresh.next(&set), Some(Ok(9)));
    assert_eq!(fresh.next(&set), None);
}

#[test]
fn iter_unaffected_by_mutation_elsewhere() {
    let mut set = OptimisticFineGrainedListSet::new();
    for k in [10, 20, 30, 40] {
        assert!(set.insert(k));
    }
    let mut iter = set.iter();
    assert_eq!(iter.next(&set), Some(Ok(10)));
    assert_eq!(iter.next(&set), Some(Ok(20)));
    // behind the iteration's position
    assert!(set.insert(5));
    assert!(set.remove(&10));
    // ahead of it, past the next node
    assert!(set.insert(35));
    assert_eq!(iter.next(&set), Some(Ok(30)));
    assert_eq!(iter.next(&set), Some(Ok(35)));
    assert_eq!(iter.next(&set), Some(Ok(40)));
    assert_eq!(iter.next(&set), None);
}

#[test]
fn scenario_insert_three_remove_middle() {
    let mut set = FineGrainedListSet::new();
    assert!(set.insert(1));
    assert!(set.insert(2));
    assert!(set.insert(3));
    assert!(set.remove(&2));
    assert_eq!(set.iter(), vec![1, 3]);

    let mut opt = OptimisticFineGrainedListSet::new();
    assert!(opt.insert(1));
    assert!(opt.contains(&1));
    assert!(opt.insert(2));
    assert!(opt.insert(3));
    assert!(opt.remove(&2));
    assert_eq!(drain(&opt), vec![Ok(1), Ok(3)]);
}

#[test]
fn scenario_unordered_inserts() {
    let mut set = FineGrainedListSet::new();
    assert_eq!(set.remove(&222), false);
    assert_eq!(set.insert(184), true);
    assert_eq!(set.insert(15), true);
    assert_eq!(set.insert(182), true);
    assert_eq!(set.iter(), vec![15, 182, 184]);
    assert_eq!(set.contains(&182), true);

    let mut opt = OptimisticFineGrainedListSet::default();
    assert_eq!(opt.remove(&222), false);
    assert_eq!(opt.insert(184), true);
    assert_eq!(opt.insert(15), true);
    assert_eq!(opt.insert(182), true);
    assert_eq!(drain(&opt), vec![Ok(15), Ok(182), Ok(184)]);
}

#[test]
fn complementarity() {
    let mut set = FineGrainedListSet::default();
    assert!(!set.remove(&7));
    assert!(set.insert(7));
    assert!(set.remove(&7));
    assert!(!set.remove(&7));
    assert!(set.iter().is_empty());

    let mut opt = OptimisticFineGrainedListSet::new();
    assert!(!opt.remove(&7));
    assert!(opt.insert(7));
    assert!(opt.remove(&7));
    assert!(!opt.remove(&7));
    assert!(drain(&opt).is_empty());
}

#[test]
fn duplicate_insert_is_refused() {
    let mut set = FineGrainedListSet::new();
    assert!(set.insert(4));
    assert!(!set.insert(4));
    assert_eq!(set.iter(), vec![4]);
    let mut opt = OptimisticFineGrainedListSet::new();
    assert!(opt.insert(4));
    assert!(!opt.insert(4));
    assert_eq!(drain(&opt), vec![Ok(4)]);
}

#[test]
fn extreme_keys() {
    let mut set = FineGrainedListSet::new();
    assert!(set.insert(u64::MAX));
    assert!(set.insert(0));
    assert!(set.insert(u64::MAX - 1));
    assert_eq!(set.iter(), vec![0, u64::MAX - 1, u64::MAX]);
    assert!(set.contains(&u64::MAX));
    assert!(!set.contains(&1));
    assert!(set.remove(&u64::MAX));
    assert_eq!(set.iter(), vec![0, u64::MAX - 1]);
}

#[test]
fn empty_set() {
    let set = FineGrainedListSet::new();
    assert!(!set.contains(&0));
    assert!(set.iter().is_empty());
    let opt = OptimisticFineGrainedListSet::new();
    assert!(!opt.contains(&0));
    let mut it = opt.iter();
    assert_eq!(it.next(&opt), None);
    assert_eq!(it.next(&opt), None);
}

#[test]
fn sequential_equivalence_with_hash_set() {
    let mut rng = Lcg(0x5eed);
    let mut set = FineGrainedListSet::new();
    let mut opt = OptimisticFineGrainedListSet::new();
    let mut model = HashSet::new();
    for _ in 0..4096 {
        let key = rng.next() % 64;
        match rng.next() % 3 {
            0 => {
                let expected = model.contains(&key);
                assert_eq!(set.contains(&key), expected);
                assert_eq!(opt.contains(&key), expected);
            }
            1 => {
                let expected = model.insert(key);
                assert_eq!(set.insert(key), expected);
                assert_eq!(opt.insert(key), expected);
            }
            _ => {
                let expected = model.remove(&key);
                assert_eq!(set.remove(&key), expected);
                assert_eq!(opt.remove(&key), expected);
            }
        }
    }
    let mut expected: Vec<u64> = model.into_iter().collect();
    expected.sort();
    assert_eq!(set.iter(), expected);
    let got: Vec<u64> = drain(&opt).into_iter().map(|r| r.unwrap()).collect();
    assert_eq!(got, expected);
}

#[test]
fn iteration_sorted_and_keeps_untouched_keys() {
    let mut rng = Lcg(42);
    let mut set = FineGrainedListSet::new();
    let mut opt = OptimisticFineGrainedListSet::new();
    for i in (0..100u32).step_by(2).rev().map(u64::from) {
        assert!(set.insert(i));
        assert!(opt.insert(i));
    }
    let evens: HashSet<u64> = set.iter().into_iter().collect();
    for _ in 0..2000 {
        let key = 2 * (rng.next() % 50) + 1;
        if rng.next() % 2 == 0 {
            set.insert(key);
            opt.insert(key);
        } else {
            set.remove(&key);
            opt.remove(&key);
        }
        let snapshot = set.iter();
        assert!(snapshot.windows(2).all(|k| k[0] < k[1]));
        let seen: HashSet<u64> = snapshot.into_iter().collect();
        assert!(evens.is_subset(&seen));
        let snap2: Vec<u64> = drain(&opt).into_iter().map(|r| r.unwrap()).collect();
        assert!(snap2.windows(2).all(|k| k[0] < k[1]));
    }
}

#[test]
fn read_no_block() {
    let mut set = OptimisticFineGrainedListSet::new();
    assert!(set.insert(1));
    assert!(set.insert(2));
    let mut iter = set.iter();
    assert_eq!(iter.next(&set), Some(Ok(1)));
    for v in 3..100 {
        assert!(set.insert(v));
    }
    assert_eq!(iter.next(&set), Some(Ok(2)));
}

#[test]
fn collect_keys_in_order() {
    let mut set = OptimisticFineGrainedListSet::new();
    assert!(set.collect_keys().is_empty());
    for k in [40, 10, 30, 20] {
        assert!(set.insert(k));
    }
    assert!(set.remove(&30));
    assert_eq!(set.collect_keys(), vec![10, 20, 40]);
}
