use delta_sync::decompose::Decompose;
use delta_sync::gcounter::GCounter;

#[test]
fn incrementation_and_counting_test() {
    let mut counter: GCounter<String> = GCounter::new();
    assert_eq!(counter.count(), 0, "empty counter different than 0");

    counter.increment(&String::from("a"));
    counter.increment(&String::from("b"));
    counter.increment(&String::from("a"));

    assert_eq!(counter.count(), 3);
    assert_eq!(counter.count_of(&String::from("a")), Some(2));
    assert_eq!(counter.count_of(&String::from("b")), Some(1));
    assert_eq!(counter.count_of(&String::from("c")), None);
}

#[test]
fn gcounter_irredudant_join_decomposition_test() {
    let mut counter: GCounter<String> = GCounter::new();

    counter.increment(&String::from("a"));
    counter.increment(&String::from("b"));
    counter.increment(&String::from("a"));

    let irredundant_join_decomposition = counter.split();
    assert_eq!(irredundant_join_decomposition.len(), 2);

    for d in irredundant_join_decomposition.iter() {
        assert!(d.extract().is_ok());
    }

    let mut remote: GCounter<String> = GCounter::new();
    remote.join(counter.split());

    assert_eq!(counter.count(), remote.count());
    assert_eq!(counter.count_of(&String::from("a")), remote.count_of(&String::from("a")));
    assert_eq!(counter.count_of(&String::from("b")), remote.count_of(&String::from("b")));
}

fn counter_from(entries: &[(&str, u64)]) -> GCounter<String> {
    let mut c: GCounter<String> = GCounter::new();
    for (id, n) in entries {
        for _ in 0..*n {
            c.increment(&String::from(*id));
        }
    }
    c
}

#[test]
fn gcounter_difference_test() {
    let mut local = counter_from(&[("a", 2), ("b", 3), ("c", 1), ("e", 1)]);
    let mut remote = counter_from(&[("a", 2), ("b", 1), ("d", 1), ("e", 3)]);

    let actual_local_diff = local.difference(&remote);
    assert_eq!(actual_local_diff.count_of(&String::from("b")), Some(3));
    assert_eq!(actual_local_diff.count_of(&String::from("c")), Some(1));
    assert_eq!(actual_local_diff.count_of(&String::from("a")), None);
    assert_eq!(actual_local_diff.count(), 4);

    let actual_remote_diff = remote.difference(&local);
    assert_eq!(actual_remote_diff.count_of(&String::from("d")), Some(1));
    assert_eq!(actual_remote_diff.count_of(&String::from("e")), Some(3));
    assert_eq!(actual_remote_diff.count(), 4);

    local.join(vec![actual_remote_diff]);
    remote.join(vec![actual_local_diff]);
    assert_eq!(local.count(), remote.count());
    for id in ["a", "b", "c", "d", "e"] {
        assert_eq!(local.count_of(&String::from(id)), remote.count_of(&String::from(id)));
    }

    let local_diff = local.difference(&remote);
    assert_eq!(local_diff.count(), 0, "difference between equal counters different than 0");

    let remote_diff = remote.difference(&local);
    assert_eq!(remote_diff.count(), 0, "difference between equal counters different than 0");
}

#[test]
fn gcounter_extraction_test() {
    let counter: GCounter<String> = GCounter::new();

    let empty_delta = counter.as_delta();
    let extraction = empty_delta.extract();
    assert!(extraction.is_err(), "extraction is working with empty deltas");

    let mut counter: GCounter<String> = GCounter::new();
    let delta = counter.increment(&String::from("a"));
    let extraction = delta.extract();
    assert!(extraction.is_ok());
    let (id, n) = extraction.unwrap();
    assert_eq!(id, String::from("a"));
    assert_eq!(n, 1, "expected should contain at least one element");

    counter.increment(&String::from("b"));
    let large_delta = counter.as_delta();
    let extraction = large_delta.extract();
    assert!(extraction.is_err(), "extraction is working with large deltas");
}

#[test]
fn test_increment() {
    let mut gcounter: GCounter<u64> = GCounter::new();

    gcounter.increment(&1);
    gcounter.increment(&2);
    gcounter.increment(&3);
    gcounter.increment(&1);

    assert_eq!(gcounter.count(), 4);
}

#[test]
fn gcounter_test_split_and_join() {
    let mut splittable: GCounter<u64> = GCounter::new();
    splittable.increment(&1);
    splittable.increment(&2);
    splittable.increment(&2);
    splittable.increment(&3);

    let decompositions = splittable.split();
    assert_eq!(decompositions.len(), 3);

    let mut joinable: GCounter<u64> = GCounter::new();

    joinable.join(decompositions);
    assert_eq!(joinable.count(), 4);
    for id in [1u64, 2, 3] {
        assert_eq!(splittable.count_of(&id), joinable.count_of(&id));
    }
}

#[test]
fn gcounter_test_difference() {
    let mut local: GCounter<u64> = GCounter::new();
    for (id, n) in [(1u64, 1u64), (2, 3), (3, 2), (4, 1)] {
        for _ in 0..n {
            local.increment(&id);
        }
    }
    let mut remote: GCounter<u64> = GCounter::new();
    for (id, n) in [(1u64, 1u64), (2, 2), (3, 4), (5, 1)] {
        for _ in 0..n {
            remote.increment(&id);
        }
    }

    let diff = local.difference(&remote);
    assert_eq!(diff.count(), 4);

    remote.join(vec![diff]);
    assert_eq!(remote.count(), 10);
    assert_eq!(remote.count_of(&1), Some(1));
    assert_eq!(remote.count_of(&2), Some(3));
    assert_eq!(remote.count_of(&3), Some(4));
    assert_eq!(remote.count_of(&4), Some(1));
    assert_eq!(remote.count_of(&5), Some(1));
}
