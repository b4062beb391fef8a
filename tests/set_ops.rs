use particle_treemap::treemap::ParticleTreemap;

fn set_of(keys: &[u64]) -> ParticleTreemap {
    let mut t = ParticleTreemap::new();
    for k in keys {
        t.insert(*k);
    }
    t
}

#[test]
fn insert_duplicates_then_range() {
    let mut t = ParticleTreemap::new();
    assert!(t.insert(5));
    assert!(t.insert(1000000));
    assert!(!t.insert(5));
    assert_eq!(t.len(), 2);
    assert_eq!(t.insert_range(10, 20), 10);
    assert_eq!(t.len(), 12);
}

#[test]
fn overlapping_sets_counts() {
    let a = set_of(&[1, 2, 3]);
    let b = set_of(&[3, 4, 5]);
    assert_eq!(a.intersection_len(&b), 1);
    assert_eq!(a.union_len(&b), 5);
    assert_eq!(a.difference_len(&b), 2);
    assert!(!a.is_disjoint(&b));
}

#[test]
fn disjoint_sets_counts() {
    let a = set_of(&[1, 2, 3, 1 << 40]);
    let b = set_of(&[4, 5, (1 << 40) + 1]);
    assert!(a.is_disjoint(&b));
    assert_eq!(a.intersection_len(&b), 0);
    assert_eq!(a.union_len(&b), a.len() + b.len());
}

#[test]
fn inclusion_exclusion_counts() {
    let a = set_of(&[1, 7, 9, 1 << 33, (1 << 33) + 4]);
    let b = set_of(&[7, 8, 1 << 33, 1 << 50]);
    assert_eq!(a.union_len(&b), a.len() + b.len() - a.intersection_len(&b));
    assert_eq!(a.difference_len(&b) + a.intersection_len(&b), a.len());
    assert_eq!(a.union_len(&b), 7);
    assert_eq!(b.difference_len(&a), 2);
}

#[test]
fn insert_twice_grows_once() {
    let mut t = set_of(&[3]);
    assert!(t.insert(u64::MAX));
    assert_eq!(t.len(), 2);
    assert!(!t.insert(u64::MAX));
    assert_eq!(t.len(), 2);
}

#[test]
fn empty_ranges_change_nothing() {
    let mut t = set_of(&[1, 2]);
    assert_eq!(t.insert_range(20, 10), 0);
    assert_eq!(t.insert_range(7, 7), 0);
    assert_eq!(t.insert_range(u64::MAX, 0), 0);
    assert_eq!(t.len(), 2);
}

#[test]
fn range_counts_only_new_keys() {
    let mut t = set_of(&[12, 15, 30]);
    assert_eq!(t.insert_range(10, 20), 8);
    assert_eq!(t.len(), 11);
}

#[test]
fn range_across_partitions() {
    let mut t = ParticleTreemap::new();
    let base: u64 = 1 << 32;
    assert_eq!(t.insert_range(base - 2, base + 3), 5);
    assert_eq!(t.len(), 5);
    assert_eq!(t.num_partitions(), 2);
    assert_eq!(t.partition_info(), vec![(0u32, 2u64), (1u32, 3u64)]);
}

#[test]
fn partitions_in_ascending_order() {
    let t = set_of(&[(7 << 32) + 1, 3, (2 << 32) + 5, (7 << 32) + 9, 4]);
    assert_eq!(t.num_partitions(), 3);
    assert_eq!(t.partition_info(), vec![(0u32, 2u64), (2u32, 1u64), (7u32, 2u64)]);
}

#[test]
fn empty_set_has_no_partitions() {
    let t = ParticleTreemap::new();
    assert_eq!(t.len(), 0);
    assert_eq!(t.num_partitions(), 0);
    assert!(t.partition_info().is_empty());
    assert_eq!(t.serialized_size(), 8);
    assert!(t.is_disjoint(&set_of(&[1])));
}

#[test]
fn bulk_insert_from_array() {
    let mut t = set_of(&[2]);
    assert!(t.from_array(&vec![1, 2, 2, 3, 1 << 35]));
    assert_eq!(t.len(), 4);
    assert_eq!(t.num_partitions(), 2);
}

#[test]
fn serialized_size_grows_with_partitions() {
    let one = set_of(&[1]);
    let two = set_of(&[1, 1 << 40]);
    assert!(one.serialized_size() > 8);
    assert!(two.serialized_size() > one.serialized_size());
}
