use delta_sync::causal::{Dot, DotContext};

fn ctx(clock: &[(&str, u64)], cloud: &[(&str, u64)]) -> DotContext<String> {
    let clock = clock.iter().map(|(i, n)| (String::from(*i), *n)).collect::<Vec<_>>();
    let cloud = cloud.iter().map(|(i, n)| Dot(String::from(*i), *n)).collect::<Vec<_>>();
    DotContext::from_parts(clock, cloud).unwrap()
}

fn dot(i: &str, n: u64) -> Dot<String> {
    Dot(String::from(i), n)
}

#[test]
fn test_membership() {
    let c = ctx(&[("a", 3), ("b", 6)], &[("a", 4), ("a", 6), ("b", 9), ("c", 3)]);

    assert_eq!(c.contains(&dot("a", 2)), true);
    assert_eq!(c.contains(&dot("a", 3)), true);
    assert_eq!(c.contains(&dot("a", 4)), true);
    assert_eq!(c.contains(&dot("a", 5)), false);

    assert_eq!(c.contains(&dot("b", 6)), true);
    assert_eq!(c.contains(&dot("b", 7)), false);
    assert_eq!(c.contains(&dot("b", 8)), false);
    assert_eq!(c.contains(&dot("b", 9)), true);
    assert_eq!(c.contains(&dot("b", 10)), false);

    assert_eq!(c.contains(&dot("c", 2)), false);
    assert_eq!(c.contains(&dot("c", 3)), true);
    assert_eq!(c.contains(&dot("c", 4)), false);

    assert_eq!(c.contains(&dot("d", 2)), false);
}

#[test]
fn test_next() {
    let mut c = ctx(&[("a", 3), ("b", 6)], &[("a", 4), ("a", 6), ("b", 9), ("c", 3)]);

    assert_eq!(c.next(&String::from("a")), 4);
    assert_eq!(c.next(&String::from("a")), 5);
    assert_eq!(c.next(&String::from("b")), 7);
    assert_eq!(c.next(&String::from("c")), 1);
    assert_eq!(c.next(&String::from("d")), 1);
}

#[test]
fn test_compactation() {
    let mut c = ctx(&[("a", 3), ("b", 6)], &[("a", 4), ("a", 5), ("b", 9), ("c", 3)]);

    c.compact();

    assert_eq!(c.clock_value(&String::from("a")), Some(5));
    assert_eq!(c.clock_value(&String::from("b")), Some(6));
    assert_eq!(c.clock_value(&String::from("c")), None);
    assert_eq!(c.cloud_len(), 2);
    assert!(c.contains(&dot("b", 9)));
    assert!(c.contains(&dot("c", 3)));
    assert!(!c.contains(&dot("a", 6)));
}

#[test]
fn test_joining() {
    let mut local = ctx(
        &[("a", 3), ("b", 6), ("c", 4), ("d", 2)],
        &[("a", 11), ("b", 10), ("c", 3)],
    );

    let remote = ctx(&[("a", 9), ("b", 10), ("d", 2), ("e", 2)], &[("d", 3), ("e", 4)]);

    local.join(&remote);

    assert_eq!(local.clock_value(&String::from("a")), Some(9));
    assert_eq!(local.clock_value(&String::from("b")), Some(10));
    assert_eq!(local.clock_value(&String::from("c")), Some(4));
    assert_eq!(local.clock_value(&String::from("d")), Some(3));
    assert_eq!(local.clock_value(&String::from("e")), Some(2));
    assert_eq!(local.cloud_len(), 2);
    assert!(local.contains(&dot("a", 11)));
    assert!(local.contains(&dot("e", 4)));
}

#[test]
fn dotcontext_next_from_empty() {
    let mut c: DotContext<String> = DotContext::new();
    assert_eq!(c.next(&String::from("a")), 1);
    assert_eq!(c.next(&String::from("b")), 1);
    assert_eq!(c.next(&String::from("a")), 2);

    assert_eq!(c.contains(&dot("a", 1)), true);
    assert_eq!(c.contains(&dot("b", 1)), true);
    assert_eq!(c.contains(&dot("a", 2)), true);
    assert_eq!(c.contains(&dot("b", 2)), false);
}

#[test]
fn dotcontext_from_parts_rejects_duplicates() {
    let dup_clock: Option<DotContext<String>> = DotContext::from_parts(
        vec![(String::from("a"), 1), (String::from("a"), 2)],
        vec![],
    );
    assert!(dup_clock.is_none());
    let dup_cloud: Option<DotContext<String>> = DotContext::from_parts(
        vec![],
        vec![Dot(String::from("a"), 3), Dot(String::from("a"), 3)],
    );
    assert!(dup_cloud.is_none());
}
