use delta_sync::awset::AWSet;
use delta_sync::bloom::FilterSizing;
use delta_sync::gcounter::GCounter;
use delta_sync::gset::GSet;
use delta_sync::sync::baseline::Baseline;
use delta_sync::sync::bloom::Bloom;
use delta_sync::sync::bloombuckets::BloomBuckets;
use delta_sync::sync::buckets::Buckets;
use delta_sync::sync::Algorithm;
use delta_sync::tracker::{Bandwidth, DefaultTracker, Telemetry};

fn sync_sizing(fpr: f64) -> FilterSizing {
    let ln2 = std::f64::consts::LN_2;
    let millibits = (-fpr.ln() / (ln2 * ln2) * 1000.0).ceil() as u64;
    let hashes = (-fpr.ln() / ln2).ceil() as u64;
    FilterSizing::new(millibits, hashes).unwrap()
}

fn gset_of(words: &str) -> GSet<String> {
    let mut gset: GSet<String> = GSet::new();
    for item in words.split_whitespace() {
        gset.insert(String::from(item));
    }
    gset
}

fn same_gset(a: &GSet<String>, b: &GSet<String>) -> bool {
    a.is_subset(b) && a.is_superset(b)
}

#[test]
fn baseline_test_sync() {
    let mut local = gset_of("Stuck In A Moment You Can't Get Out Of");
    let mut remote = gset_of("I Still Haven't Found What I'm Looking For");

    // half a kilobit per second on both links
    let (download, upload) = (Bandwidth::new(500), Bandwidth::new(500));
    let mut tracker = DefaultTracker::new(download, upload);

    let baseline = Baseline::new();
    baseline.sync(&mut local, &mut remote, &mut tracker);

    let bytes: Vec<usize> = tracker.events().iter().map(|e| e.bytes()).collect();
    assert_eq!(bytes, vec![30, 35]);
    assert_eq!(tracker.false_matches(), 0);
}

#[test]
fn buckets_test_sync() {
    let mut local = gset_of("Stuck In A Moment You Can't Get Out Of");
    let mut remote = gset_of("I Still Haven't Found What I'm Looking For");

    let (download, upload) = (Bandwidth::new(500), Bandwidth::new(500));
    let mut tracker = DefaultTracker::new(download, upload);
    // a load factor of 1.25 over nine local pieces provisions twelve buckets
    let buckets = Buckets::new(1250).unwrap();

    buckets.sync(&mut local, &mut remote, &mut tracker);

    let bytes: Vec<usize> = tracker.events().iter().map(|e| e.bytes()).collect();
    assert_eq!(bytes[0], 12 * 8);
    assert_eq!(tracker.false_matches(), 0);
    assert!(same_gset(&local, &remote));
}

#[test]
fn bloombuckets_test_sync() {
    let mut local = gset_of("a b c d e f g h i j k l");
    let mut remote = gset_of("m n o p q r s t u v w x y z");

    let (download, upload) = (Bandwidth::new(500), Bandwidth::new(500));
    let mut tracker = DefaultTracker::new(download, upload);
    let bloom_buckets = BloomBuckets::new(sync_sizing(0.01), 1000).unwrap();

    bloom_buckets.sync(&mut local, &mut remote, &mut tracker);
    assert_eq!(tracker.false_matches(), 0);

    let events = tracker.events();
    assert_eq!(events.len(), 4);
}

#[test]
fn baseline_gset_scenario() {
    // local {"a","b","c"}, remote {"c","d"}: both end with all four
    // elements, the upload carries the three local bytes, the download the
    // one missing byte
    let mut local = gset_of("a b c");
    let mut remote = gset_of("c d");

    let mut tracker = DefaultTracker::new(Bandwidth::new(1000), Bandwidth::new(1000));
    Baseline::new().sync(&mut local, &mut remote, &mut tracker);

    for x in ["a", "b", "c", "d"] {
        assert!(local.contains(&String::from(x)));
        assert!(remote.contains(&String::from(x)));
    }
    let events = tracker.events();
    assert_eq!(events.len(), 2);
    assert_eq!(events[0].state(), 3);
    assert_eq!(events[1].state(), 1);
    assert_eq!(tracker.false_matches(), 0);
}

#[test]
fn buckets_gset_scenario() {
    // load factor one over three local pieces: the fingerprint vector is
    // three eight-byte digests
    let mut local = gset_of("x y z");
    let mut remote = gset_of("y z w");

    let mut tracker = DefaultTracker::new(Bandwidth::new(1000), Bandwidth::new(1000));
    Buckets::new(1000).unwrap().sync(&mut local, &mut remote, &mut tracker);

    assert_eq!(tracker.events()[0].metadata(), 24);
    assert_eq!(tracker.false_matches(), 0);
    assert!(same_gset(&local, &remote));
    for x in ["x", "y", "z", "w"] {
        assert!(local.contains(&String::from(x)));
    }
}

#[test]
fn bloom_gset_scenario() {
    // a thousand shared sixteen-byte strings, ten unique on each side; the
    // filter travels once in each direction and nearly everything matches
    let mut words = Vec::new();
    let mut x: u64 = 0x243f6a8885a308d3;
    for _ in 0..1020 {
        // a fixed linear-congruential walk: sixteen hex digits per item
        x = x.wrapping_mul(6364136223846793005).wrapping_add(1442695040888963407);
        words.push(format!("{x:016x}"));
    }
    let mut local: GSet<String> = GSet::new();
    let mut remote: GSet<String> = GSet::new();
    for w in words[..1000].iter() {
        local.insert(w.clone());
        remote.insert(w.clone());
    }
    for w in words[1000..1010].iter() {
        local.insert(w.clone());
    }
    for w in words[1010..1020].iter() {
        remote.insert(w.clone());
    }

    let mut tracker = DefaultTracker::new(Bandwidth::new(1000), Bandwidth::new(1000));
    Bloom::new(sync_sizing(0.01)).sync(&mut local, &mut remote, &mut tracker);

    // each filter is the packed bit array plus two eight-byte seeds
    let millibits = (-(0.01f64).ln() / (std::f64::consts::LN_2 * std::f64::consts::LN_2)
        * 1000.0).ceil() as usize;
    let bits = (1010 * millibits + 999) / 1000;
    let expected_filter_bytes = (bits + 7) / 8 + 16;
    assert_eq!(tracker.events()[0].metadata(), expected_filter_bytes);
    // a residual divergence only comes from filter false positives
    assert!(tracker.false_matches() <= 20);
}

#[test]
fn baseline_gcounter_scenario() {
    let mut local: GCounter<String> = GCounter::new();
    for _ in 0..3 {
        local.increment(&String::from("a"));
    }
    local.increment(&String::from("b"));

    let mut remote: GCounter<String> = GCounter::new();
    for _ in 0..2 {
        remote.increment(&String::from("a"));
    }
    for _ in 0..4 {
        remote.increment(&String::from("b"));
    }
    remote.increment(&String::from("c"));

    let mut tracker = DefaultTracker::new(Bandwidth::new(1000), Bandwidth::new(1000));
    Baseline::new().sync(&mut local, &mut remote, &mut tracker);

    for c in [&local, &remote] {
        assert_eq!(c.count_of(&String::from("a")), Some(3));
        assert_eq!(c.count_of(&String::from("b")), Some(4));
        assert_eq!(c.count_of(&String::from("c")), Some(1));
        assert_eq!(c.count(), 8);
    }
    assert_eq!(tracker.false_matches(), 0);
}

#[test]
fn baseline_awset_interleaving() {
    // local inserts then removes "x", tombstoning its own uid; remote
    // inserts "x" under a fresh uid; after an exact sync the remote
    // insertion wins on both sides
    let mut local: AWSet<String> = AWSet::new();
    local.insert(String::from("x"));
    local.remove(&String::from("x"));

    let mut remote: AWSet<String> = AWSet::new();
    remote.insert(String::from("x"));

    let mut tracker = DefaultTracker::new(Bandwidth::new(1000), Bandwidth::new(1000));
    Baseline::new().sync(&mut local, &mut remote, &mut tracker);

    assert!(local.contains(&String::from("x")));
    assert!(remote.contains(&String::from("x")));
    assert_eq!(tracker.false_matches(), 0);
}

#[test]
fn second_run_is_idempotent() {
    // a second session on converged replicas records events but moves no
    // state bytes toward the remote beyond the full-state upload, and the
    // download delta is empty
    let mut local = gset_of("a b c");
    let mut remote = gset_of("c d");

    let mut t1 = DefaultTracker::new(Bandwidth::new(1000), Bandwidth::new(1000));
    Baseline::new().sync(&mut local, &mut remote, &mut t1);
    assert_eq!(t1.false_matches(), 0);

    let mut t2 = DefaultTracker::new(Bandwidth::new(1000), Bandwidth::new(1000));
    Baseline::new().sync(&mut local, &mut remote, &mut t2);
    assert_eq!(t2.events().len(), 2);
    assert_eq!(t2.events()[1].state(), 0);
    assert_eq!(t2.false_matches(), 0);
    assert_eq!(local.len(), 4);
    assert_eq!(remote.len(), 4);

    let mut t3 = DefaultTracker::new(Bandwidth::new(1000), Bandwidth::new(1000));
    Buckets::new(1000).unwrap().sync(&mut local, &mut remote, &mut t3);
    assert_eq!(t3.events().len(), 3);
    assert_eq!(t3.events()[1].state(), 0);
    assert_eq!(t3.events()[2].state(), 0);
    assert_eq!(t3.false_matches(), 0);
    assert_eq!(local.len(), 4);
    assert_eq!(remote.len(), 4);
}

#[test]
fn buckets_awset_sync() {
    let mut local: AWSet<String> = AWSet::new();
    for w in ["p", "q", "r"] {
        local.insert(String::from(w));
    }
    local.remove(&String::from("q"));
    let mut remote: AWSet<String> = AWSet::new();
    for w in ["r", "s"] {
        remote.insert(String::from(w));
    }

    let mut tracker = DefaultTracker::new(Bandwidth::new(1000), Bandwidth::new(1000));
    Buckets::new(1000).unwrap().sync(&mut local, &mut remote, &mut tracker);

    assert_eq!(tracker.false_matches(), 0);
    for w in ["p", "r", "s"] {
        assert!(local.contains(&String::from(w)));
        assert!(remote.contains(&String::from(w)));
    }
    assert!(!local.contains(&String::from("q")));
    assert!(!remote.contains(&String::from("q")));
}

#[test]
fn telemetry_accounting_baseline() {
    // for an exact protocol the state bytes moved cover the symmetric
    // difference: here three bytes up and one byte down against a
    // four-byte symmetric difference
    let mut local = gset_of("a b c");
    let mut remote = gset_of("c d");

    let mut tracker = DefaultTracker::new(Bandwidth::new(1000), Bandwidth::new(1000));
    Baseline::new().sync(&mut local, &mut remote, &mut tracker);

    let moved: usize = tracker.events().iter().map(|e| e.state()).sum();
    assert!(moved >= 3);
}

#[test]
fn config_rejects_zero_load_factor() {
    assert!(Buckets::new(0).is_err());
    assert!(Buckets::new(1000).is_ok());
    assert!(BloomBuckets::new(sync_sizing(0.01), 0).is_err());
    assert!(BloomBuckets::new(sync_sizing(0.01), 200).is_ok());
}

#[test]
fn tracker_lifecycle() {
    let mut tracker = DefaultTracker::new(Bandwidth::new(2000), Bandwidth::new(1000));
    assert!(tracker.is_ready());
    assert_eq!(tracker.upload().bits_per_sec(), 1000);
    assert_eq!(tracker.download().bits_per_sec(), 2000);

    let mut local = gset_of("a");
    let mut remote = gset_of("b");
    Baseline::new().sync(&mut local, &mut remote, &mut tracker);
    assert!(!tracker.is_ready());
    assert_eq!(tracker.events().len(), 2);
    assert_eq!(tracker.false_matches(), 0);
}

#[test]
fn default_configurations_sync() {
    // the default load factor is one bucket per piece; the default combined
    // configuration targets a one-percent false-positive rate
    let mut local = gset_of("a b");
    let mut remote = gset_of("b c");
    let mut t1 = DefaultTracker::new(Bandwidth::new(1000), Bandwidth::new(1000));
    Buckets::default().sync(&mut local, &mut remote, &mut t1);
    assert_eq!(t1.false_matches(), 0);
    assert!(same_gset(&local, &remote));

    let mut local = gset_of("p q");
    let mut remote = gset_of("q r");
    let mut t2 = DefaultTracker::new(Bandwidth::new(1000), Bandwidth::new(1000));
    BloomBuckets::default().sync(&mut local, &mut remote, &mut t2);
    assert_eq!(t2.events().len(), 4);
}
