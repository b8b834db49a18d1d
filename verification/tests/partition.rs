use std::collections::hash_map::DefaultHasher;
use std::hash::{Hash, Hasher};
use std::sync::Arc;

use databend_plan::partition::{PartInfo, Partitions, PartitionsShuffleKind};

#[derive(Debug, PartialEq)]
struct Part {
    id: u64,
    note: u64,
}

impl PartInfo for Part {
    fn spec_hash(&self) -> u64 {
        self.id
    }

    fn hash(&self) -> u64 {
        self.id
    }

    fn spec_equals(&self, info: &Self) -> bool {
        self.id == info.id
    }

    fn equals(&self, info: &Self) -> bool {
        self.id == info.id
    }
}

fn parts(ids: &[u64]) -> Vec<Arc<Part>> {
    ids.iter().map(|id| Arc::new(Part { id: *id, note: 0 })).collect()
}

fn ids(p: &Partitions<Part>) -> Vec<u64> {
    p.partitions.iter().map(|x| x.id).collect()
}

fn names(v: &[&str]) -> Vec<String> {
    v.iter().map(|s| s.to_string()).collect()
}

fn executor_hash(s: &str) -> u64 {
    let mut h = DefaultHasher::new();
    s.to_string().hash(&mut h);
    h.finish()
}

#[test]
fn create_len_is_empty_default() {
    let p = Partitions::create(PartitionsShuffleKind::Mod, parts(&[1, 2, 3]));
    assert_eq!(p.kind, PartitionsShuffleKind::Mod);
    assert_eq!(p.len(), 3);
    assert!(!p.is_empty());
    let d: Partitions<Part> = Partitions::default();
    assert_eq!(d.kind, PartitionsShuffleKind::Range);
    assert_eq!(d.len(), 0);
    assert!(d.is_empty());
}

#[test]
fn reshuffle_by_range_gives_chunks_and_rest_to_last() {
    let p = Partitions::create(PartitionsShuffleKind::Range, parts(&[0, 1, 2, 3, 4, 5, 6]));
    let m = p.reshuffle(names(&["e0", "e1", "e2"]));
    let e0 = m.get(&"e0".to_string()).unwrap();
    let e1 = m.get(&"e1".to_string()).unwrap();
    let e2 = m.get(&"e2".to_string()).unwrap();
    assert_eq!(ids(e0), vec![0, 1]);
    assert_eq!(ids(e1), vec![2, 3]);
    assert_eq!(ids(e2), vec![4, 5, 6]);
    assert_eq!(e0.kind, PartitionsShuffleKind::Range);
    assert!(m.get(&"e3".to_string()).is_none());
    // Together the chunks are the partitions, in order.
    let mut all = ids(e0);
    all.extend(ids(e1));
    all.extend(ids(e2));
    assert_eq!(all, vec![0, 1, 2, 3, 4, 5, 6]);
}

#[test]
fn reshuffle_by_range_with_more_executors_than_parts() {
    let p = Partitions::create(PartitionsShuffleKind::Range, parts(&[7, 8]));
    let m = p.reshuffle(names(&["a", "b", "c"]));
    assert_eq!(ids(m.get(&"a".to_string()).unwrap()), Vec::<u64>::new());
    assert_eq!(ids(m.get(&"b".to_string()).unwrap()), Vec::<u64>::new());
    assert_eq!(ids(m.get(&"c".to_string()).unwrap()), vec![7, 8]);
}

#[test]
fn reshuffle_by_range_later_name_wins() {
    let p = Partitions::create(PartitionsShuffleKind::Range, parts(&[0, 1, 2, 3, 4, 5]));
    let m = p.reshuffle(names(&["a", "b", "a"]));
    assert_eq!(ids(m.get(&"a".to_string()).unwrap()), vec![4, 5]);
    assert_eq!(ids(m.get(&"b".to_string()).unwrap()), vec![2, 3]);
    assert_eq!(m.into_entries().len(), 3);
}

#[test]
fn reshuffle_by_hash_routes_by_part_hash() {
    let executors = names(&["node-a", "node-b", "node-c"]);
    let n = executors.len();
    let p = Partitions::create(PartitionsShuffleKind::Mod, parts(&[0, 1, 2, 3, 4, 5, 6, 7]));
    let m = p.reshuffle(executors.clone());
    // Expected: slot i holds the parts whose id % n == i, and goes to
    // executors[hash(executors[i]) % n]; slots under one executor are joined.
    let mut expected: Vec<(String, Vec<u64>)> = Vec::new();
    for i in 0..n {
        let key = executors[(executor_hash(&executors[i]) as usize) % n].clone();
        let slot: Vec<u64> = (0u64..8).filter(|id| (*id as usize) % n == i).collect();
        match expected.iter_mut().find(|(k, _)| *k == key) {
            Some((_, v)) => v.extend(slot),
            None => expected.push((key, slot)),
        }
    }
    for (key, slot) in &expected {
        let got = m.get(key).unwrap();
        assert_eq!(&ids(got), slot);
        assert_eq!(got.kind, PartitionsShuffleKind::Range);
    }
    for e in &executors {
        if !expected.iter().any(|(k, _)| k == e) {
            assert!(m.get(e).is_none());
        }
    }
}

#[test]
fn reshuffle_by_hash_slots_cover_all_parts() {
    // With a single executor, its one slot holds every partition.
    let p = Partitions::create(PartitionsShuffleKind::Mod, parts(&[5, 3, 9, 3]));
    let m = p.reshuffle(names(&["only"]));
    assert_eq!(ids(m.get(&"only".to_string()).unwrap()), vec![5, 3, 9, 3]);
}

#[test]
fn reshuffle_by_hash_same_part_same_executor() {
    let executors = names(&["x", "y"]);
    let a = Partitions::create(PartitionsShuffleKind::Mod, parts(&[10, 11, 12]));
    let b = Partitions::create(PartitionsShuffleKind::Mod, parts(&[12, 40, 41, 42]));
    let ma = a.reshuffle(executors.clone());
    let mb = b.reshuffle(executors.clone());
    for e in &executors {
        let in_a = ma.get(e).map_or(false, |p| ids(p).contains(&12));
        let in_b = mb.get(e).map_or(false, |p| ids(p).contains(&12));
        assert_eq!(in_a, in_b);
    }
}

#[test]
fn reshuffle_by_hash_with_no_executors_and_no_parts() {
    let p: Partitions<Part> = Partitions::create(PartitionsShuffleKind::Mod, Vec::new());
    let m = p.reshuffle(Vec::new());
    assert!(m.into_entries().is_empty());
}

#[test]
fn part_info_equals() {
    let a = Part { id: 1, note: 0 };
    assert!(a.equals(&Part { id: 1, note: 5 }));
    assert!(!a.equals(&Part { id: 2, note: 0 }));
}

#[test]
fn partitions_compare_parts_by_equals() {
    let a = Partitions::create(
        PartitionsShuffleKind::Range,
        vec![Arc::new(Part { id: 1, note: 0 }), Arc::new(Part { id: 2, note: 0 })],
    );
    let b = Partitions::create(
        PartitionsShuffleKind::Range,
        vec![Arc::new(Part { id: 1, note: 7 }), Arc::new(Part { id: 2, note: 8 })],
    );
    assert!(a == b);
    let c = Partitions::create(PartitionsShuffleKind::Mod, parts(&[1, 2]));
    assert!(a != c);
    let d = Partitions::create(PartitionsShuffleKind::Range, parts(&[1, 3]));
    assert!(a != d);
    let e = Partitions::create(PartitionsShuffleKind::Range, parts(&[1]));
    assert!(a != e);
}

#[test]
fn reshuffle_by_hash_joins_slots_of_one_executor() {
    // Find two names whose hashes pick the same executor index among two.
    let mut pair = None;
    'outer: for a in 0..50 {
        for b in 0..50 {
            if a == b {
                continue;
            }
            let x = format!("n{}", a);
            let y = format!("n{}", b);
            if executor_hash(&x) % 2 == executor_hash(&y) % 2 {
                pair = Some((x, y));
                break 'outer;
            }
        }
    }
    let (x, y) = pair.unwrap();
    let executors = vec![x.clone(), y.clone()];
    let target = executors[(executor_hash(&x) % 2) as usize].clone();
    let other = if target == x { y.clone() } else { x.clone() };
    let p = Partitions::create(PartitionsShuffleKind::Mod, parts(&[0, 1, 2, 3, 4]));
    let m = p.reshuffle(executors);
    // Slot 0 (even ids) then slot 1 (odd ids), both under the one executor.
    assert_eq!(ids(m.get(&target).unwrap()), vec![0, 2, 4, 1, 3]);
    assert!(m.get(&other).is_none());
}
