use delta_sync::awset::AWSet;
use delta_sync::decompose::Decompose;
use delta_sync::decompose::Measure;

#[test]
fn test_insert_and_remove() {
    let mut awset: AWSet<u64> = AWSet::new();
    assert_eq!(awset.len(), 0);
    assert!(awset.is_empty());

    awset.insert(1);
    awset.insert(2);
    awset.insert(3);
    assert_eq!(awset.len(), 3);
    assert!(!awset.is_empty());

    awset.remove(&2);
    awset.remove(&2);
    awset.remove(&4);
    assert_eq!(awset.len(), 2);

    awset.insert(2);
    awset.insert(4);
    assert_eq!(awset.len(), 4);
}

#[test]
fn test_elements() {
    let mut awset: AWSet<u64> = AWSet::new();
    awset.insert(1);
    awset.insert(2);
    awset.insert(3);

    assert!(awset.elements().iter().all(|v| vec![1, 2, 3].contains(v)));

    awset.remove(&1);
    awset.insert(3);
    awset.remove(&3);

    let elems = awset.elements();
    assert_eq!(elems.first(), Some(&2));

    awset.remove(&2);
    assert_eq!(awset.elements().first(), None);
}

#[test]
fn awset_test_split_and_join() {
    let mut splittable: AWSet<u64> = AWSet::new();

    splittable.insert(1);
    splittable.insert(2);
    splittable.insert(3);
    splittable.remove(&2);
    splittable.remove(&4);

    assert!(splittable.contains(&1));
    assert!(splittable.contains(&3));

    let decompositions = splittable.split();
    assert_eq!(decompositions.len(), 4);

    for d in decompositions.iter() {
        assert!(d.extract().is_ok());
    }

    let mut joinable: AWSet<u64> = AWSet::new();
    joinable.join(splittable.split());

    assert_eq!(splittable.len(), joinable.len());
    assert!(joinable.contains(&1));
    assert!(joinable.contains(&3));
    assert!(!joinable.contains(&2));
}

#[test]
fn awset_test_difference() {
    let local: AWSet<u64> = AWSet::from_parts(
        vec![(1, 1), (2, 3), (3, 2), (4, 4), (5, 10)],
        vec![1, 3],
    ).unwrap();

    let remote: AWSet<u64> = AWSet::from_parts(vec![(1, 1), (2, 3), (3, 2)], vec![1, 2]).unwrap();

    let diff = local.difference(&remote);
    let slots = diff.slots_list();
    assert_eq!(slots.len(), 2);
    assert!(slots.contains(&(4, 4)));
    assert!(slots.contains(&(5, 10)));
    let stones = diff.tombstones_list();
    assert_eq!(stones, vec![3]);
}

#[test]
fn awset_test_difference_synced() {
    let local: AWSet<u64> = AWSet::from_parts(
        vec![(1, 1), (2, 3), (3, 2), (4, 4), (5, 10)],
        vec![1, 3],
    ).unwrap();

    let remote: AWSet<u64> = AWSet::from_parts(
        vec![(1, 1), (2, 3), (3, 2), (4, 4), (5, 10)],
        vec![1, 3],
    ).unwrap();

    assert_eq!(local.len(), remote.len());

    let diff = local.difference(&remote);
    assert!(diff.slots_list().is_empty());
    assert!(diff.tombstones_list().is_empty());
}

#[test]
fn test_false_matches() {
    let local: AWSet<String> = AWSet::from_parts(
        vec![
            (1, String::from("1")),
            (4, String::from("4")),
            (5, String::from("10")),
        ],
        vec![1, 4],
    ).unwrap();

    let remote: AWSet<String> = AWSet::from_parts(
        vec![
            (1, String::from("1")),
            (2, String::from("3")),
            (3, String::from("2")),
        ],
        vec![1, 2],
    ).unwrap();

    // the observable values are {"10"} locally and {"2"} remotely: two
    // elements in the symmetric difference
    assert_eq!(local.false_matches(&remote), 2);
}

#[test]
fn awset_readd_after_remove() {
    // removing tombstones only the uids the remover saw; a later insertion
    // of the same value survives
    let mut awset: AWSet<String> = AWSet::new();
    awset.insert(String::from("x"));
    awset.remove(&String::from("x"));
    assert!(!awset.contains(&String::from("x")));
    awset.insert(String::from("x"));
    assert!(awset.contains(&String::from("x")));
}

#[test]
fn awset_from_parts_rejects_duplicates() {
    let dup_slot: Option<AWSet<u64>> = AWSet::from_parts(vec![(1, 10), (1, 11)], vec![]);
    assert!(dup_slot.is_none());
    let dup_stone: Option<AWSet<u64>> = AWSet::from_parts(vec![], vec![7, 7]);
    assert!(dup_stone.is_none());
}
