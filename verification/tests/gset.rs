use delta_sync::decompose::Decompose;
use delta_sync::gset::GSet;

#[test]
fn insertion_and_membership_test() {
    let mut set: GSet<String> = GSet::new();
    assert!(set.is_empty());
    assert_eq!(set.len(), 0);

    let d1 = set.insert(String::from("a"));
    assert_eq!(d1.len(), 1);
    let d2 = set.insert(String::from("b"));
    assert_eq!(d2.len(), 1);
    let d3 = set.insert(String::from("b"));
    assert!(d3.is_empty());

    assert!(!set.is_empty(), "set shouldn't be empty");
    assert_eq!(set.len(), 2, "set should have only 2 elements");

    let elems = ["a", "b"];
    for x in elems {
        assert!(set.contains(&String::from(x)), "set does not contain element {x}");
    }
}

#[test]
fn gset_irredudant_join_decomposition_test() {
    let mut set: GSet<String> = GSet::new();

    set.insert(String::from("a"));
    set.insert(String::from("b"));
    set.insert(String::from("c"));

    let irredudant_join_decomposition = set.split();
    assert_eq!(set.len(), irredudant_join_decomposition.len());

    for d in irredudant_join_decomposition.iter() {
        assert_eq!(d.len(), 1);
        assert!(d.extract().is_ok());
    }

    let mut remote: GSet<String> = GSet::new();
    remote.join(set.split());

    assert!(set.is_subset(&remote));
    assert!(set.is_superset(&remote));
}

#[test]
fn gset_difference_test() {
    let mut local: GSet<String> = GSet::new();
    for x in ["a", "b", "c", "e"] {
        local.insert(String::from(x));
    }
    let mut remote: GSet<String> = GSet::new();
    for x in ["a", "b", "d", "f"] {
        remote.insert(String::from(x));
    }

    let actual_local_diff = local.difference(&remote);
    assert_eq!(actual_local_diff.len(), 2);
    assert!(actual_local_diff.contains(&String::from("c")));
    assert!(actual_local_diff.contains(&String::from("e")));

    let actual_remote_diff = remote.difference(&local);
    assert_eq!(actual_remote_diff.len(), 2);
    assert!(actual_remote_diff.contains(&String::from("d")));
    assert!(actual_remote_diff.contains(&String::from("f")));

    local.join(vec![actual_remote_diff]);
    remote.join(vec![actual_local_diff]);
    assert!(local.is_subset(&remote) && local.is_superset(&remote));

    let local_diff = local.difference(&remote);
    assert!(local_diff.is_empty(), "difference between equal sets has items");

    let remote_diff = remote.difference(&local);
    assert!(remote_diff.is_empty(), "difference between equal sets has items");
}

#[test]
fn gset_extraction_test() {
    let set: GSet<String> = GSet::new();

    let empty_delta = set.as_delta();
    let extraction = empty_delta.extract();
    assert!(extraction.is_err(), "extraction is working with empty deltas");

    let mut set: GSet<String> = GSet::new();
    let delta = set.insert(String::from("a"));
    assert_eq!(delta.len(), 1, "insertion of a new element should produce `Some`");
    let extraction = delta.extract();
    assert!(extraction.is_ok_and(|v| v == "a"));

    set.insert(String::from("b"));
    let large_delta = set.as_delta();
    let extraction = large_delta.extract();
    assert!(extraction.is_err(), "extraction is working with large deltas");
}

#[test]
fn lib_test_split_and_join() {
    let mut splittable: GSet<u64> = GSet::new();

    splittable.insert(1);
    splittable.insert(2);
    splittable.insert(2);

    let decompositions = splittable.split();
    assert_eq!(decompositions.len(), splittable.len());

    let mut joinable: GSet<u64> = GSet::new();

    joinable.join(decompositions);
    assert_eq!(joinable.len(), splittable.len());

    assert!(joinable.contains(&1));
    assert!(joinable.contains(&2));
}

#[test]
fn lib_test_difference() {
    let mut local: GSet<u64> = GSet::new();
    let mut remote: GSet<u64> = GSet::new();

    local.insert(0);
    local.insert(1);
    local.insert(2);

    remote.insert(2);
    remote.insert(3);
    remote.insert(4);

    let diff = local.difference(&remote);

    assert!(diff.contains(&0));
    assert!(diff.contains(&1));
    assert!(!diff.contains(&2));
    assert!(!diff.contains(&3));
    assert!(!diff.contains(&4));
}

#[test]
fn crdt_test_split_and_join() {
    let mut splittable: GSet<u64> = GSet::new();

    splittable.insert(1);
    splittable.insert(2);
    splittable.insert(2);
    assert_eq!(splittable.len(), 2);

    let decompositions = splittable.split();
    assert_eq!(decompositions.len(), splittable.len());

    let mut joinable: GSet<u64> = GSet::new();

    joinable.join(decompositions);
    assert_eq!(joinable.len(), splittable.len());
    assert!(joinable.contains(&1));
    assert!(joinable.contains(&2));

    joinable.insert(3);
}

#[test]
fn crdt_test_difference() {
    let mut local: GSet<u64> = GSet::new();
    for x in 0..=2u64 {
        local.insert(x);
    }
    let mut remote: GSet<u64> = GSet::new();
    for x in 2..=4u64 {
        remote.insert(x);
    }

    let diff = local.difference(&remote);
    assert!(diff.contains(&0));
    assert!(diff.contains(&1));
    assert!(!diff.contains(&2));
    assert!(!diff.contains(&3));
    assert!(!diff.contains(&4));
}

#[test]
fn crdt_test_difference_synced() {
    let mut local: GSet<u64> = GSet::new();
    for x in 0..3u64 {
        local.insert(x);
    }
    let mut remote: GSet<u64> = GSet::new();
    for x in 0..3u64 {
        remote.insert(x);
    }

    assert!(local.is_subset(&remote) && local.is_superset(&remote));

    let diff = local.difference(&remote);
    assert!(diff.is_empty());
}

#[test]
fn gset_join_laws() {
    // joining a value with itself, in either order or grouping, never
    // changes what a reader observes
    let mut a: GSet<u64> = GSet::new();
    a.insert(1);
    a.insert(2);
    let mut b: GSet<u64> = GSet::new();
    b.insert(2);
    b.insert(3);
    let mut c: GSet<u64> = GSet::new();
    c.insert(4);

    let mut aa: GSet<u64> = GSet::new();
    aa.join(a.split());
    aa.join(a.split());
    assert!(aa.is_subset(&a) && aa.is_superset(&a));

    let mut ab: GSet<u64> = GSet::new();
    ab.join(a.split());
    ab.join(b.split());
    let mut ba: GSet<u64> = GSet::new();
    ba.join(b.split());
    ba.join(a.split());
    assert!(ab.is_subset(&ba) && ab.is_superset(&ba));

    let mut abc1: GSet<u64> = GSet::new();
    abc1.join(a.split());
    abc1.join(b.split());
    abc1.join(c.split());
    let mut bc: GSet<u64> = GSet::new();
    bc.join(b.split());
    bc.join(c.split());
    let mut abc2: GSet<u64> = GSet::new();
    abc2.join(a.split());
    abc2.join(bc.split());
    assert!(abc1.is_subset(&abc2) && abc1.is_superset(&abc2));
}

#[test]
fn gset_difference_law() {
    // join(b, difference(a, b)) equals join(a, b), and difference(a, a) is empty
    let mut a: GSet<u64> = GSet::new();
    for x in [1, 2, 3, 4] {
        a.insert(x);
    }
    let mut b: GSet<u64> = GSet::new();
    for x in [3, 4, 5] {
        b.insert(x);
    }

    let d = a.difference(&b);
    let mut left: GSet<u64> = GSet::new();
    left.join(b.split());
    left.join(d.split());

    let mut right: GSet<u64> = GSet::new();
    right.join(a.split());
    right.join(b.split());

    assert!(left.is_subset(&right) && left.is_superset(&right));

    let self_diff = a.difference(&a);
    assert!(self_diff.is_empty());
}
