use thresholds::ThresholdTable;

fn basic() -> ThresholdTable<&'static str> {
    ThresholdTable::Basic {
        low: "low",
        medium: "medium",
        high: "high",
    }
}

fn dynamic() -> ThresholdTable<&'static str> {
    ThresholdTable::Dynamic(vec!["low", "medium", "high"])
}

fn manual() -> ThresholdTable<&'static str> {
    ThresholdTable::Manual(vec![(0, "low"), (33, "medium"), (67, "high")])
}

#[test]
fn basic_interval_boundaries() {
    let levels = basic();
    assert_eq!(levels.resolve(0, 300), Some(&"low"));
    assert_eq!(levels.resolve(99, 300), Some(&"low"));
    assert_eq!(levels.resolve(100, 300), Some(&"medium"));
    assert_eq!(levels.resolve(199, 300), Some(&"medium"));
    assert_eq!(levels.resolve(200, 300), Some(&"high"));
    assert_eq!(levels.resolve(300, 300), Some(&"high"));
}

#[test]
fn basic_over_max_clamps_to_high() {
    let levels = basic();
    assert_eq!(levels.resolve(301, 300), Some(&"high"));
    assert_eq!(levels.resolve(10_000, 300), Some(&"high"));
}

#[test]
fn dynamic_first_and_last_entries() {
    let levels = dynamic();
    assert_eq!(levels.resolve(0, 100), Some(&"low"));
    assert_eq!(levels.resolve(100, 100), Some(&"high"));
}

#[test]
fn dynamic_over_max_clamps_to_last() {
    let levels = dynamic();
    assert_eq!(levels.resolve(101, 100), Some(&"high"));
    assert_eq!(levels.resolve(10_000, 100), Some(&"high"));
}

#[test]
fn dynamic_bucket_edges_fall_to_lower_bucket() {
    let levels: ThresholdTable<u32> = ThresholdTable::Dynamic(vec![1, 2, 3, 4]);
    assert_eq!(levels.resolve(25, 100), Some(&1));
    assert_eq!(levels.resolve(26, 100), Some(&2));
    assert_eq!(levels.resolve(50, 100), Some(&2));
    assert_eq!(levels.resolve(51, 100), Some(&3));
    assert_eq!(levels.resolve(75, 100), Some(&3));
    assert_eq!(levels.resolve(76, 100), Some(&4));
}

#[test]
fn dynamic_empty_resolves_none() {
    let levels: ThresholdTable<&str> = ThresholdTable::Dynamic(Vec::new());
    assert_eq!(levels.resolve(0, 100), None);
    assert_eq!(levels.resolve(50, 100), None);
    assert_eq!(levels.resolve(100, 100), None);
    assert_eq!(levels.resolve(101, 100), None);
}

#[test]
fn manual_empty_resolves_none() {
    let levels: ThresholdTable<&str> = ThresholdTable::Manual(Vec::new());
    assert_eq!(levels.resolve(0, 100), None);
    assert_eq!(levels.resolve(50, 100), None);
    assert_eq!(levels.resolve(100, 100), None);
}

#[test]
fn manual_floor_boundaries() {
    let levels = manual();
    assert_eq!(levels.resolve(0, 100), Some(&"low"));
    assert_eq!(levels.resolve(32, 100), Some(&"low"));
    assert_eq!(levels.resolve(33, 100), Some(&"medium"));
    assert_eq!(levels.resolve(66, 100), Some(&"medium"));
    assert_eq!(levels.resolve(67, 100), Some(&"high"));
    assert_eq!(levels.resolve(100, 100), Some(&"high"));
}

#[test]
fn manual_below_all_boundaries_resolves_none() {
    let levels: ThresholdTable<&str> = ThresholdTable::Manual(vec![(10, "only")]);
    assert_eq!(levels.resolve(5, 100), None);
    assert_eq!(levels.resolve(9, 100), None);
    assert_eq!(levels.resolve(10, 100), Some(&"only"));
}

#[test]
fn manual_keys_may_be_unordered() {
    let levels: ThresholdTable<&str> =
        ThresholdTable::Manual(vec![(67, "high"), (0, "low"), (33, "medium")]);
    assert_eq!(levels.resolve(0, 100), Some(&"low"));
    assert_eq!(levels.resolve(50, 100), Some(&"medium"));
    assert_eq!(levels.resolve(80, 100), Some(&"high"));
}

#[test]
fn cross_variant_parity_at_sample_points() {
    let tables = [basic(), dynamic(), manual()];
    for levels in &tables {
        assert_eq!(levels.resolve(0, 100), Some(&"low"));
        assert_eq!(levels.resolve(25, 100), Some(&"low"));
        assert_eq!(levels.resolve(50, 100), Some(&"medium"));
        assert_eq!(levels.resolve(75, 100), Some(&"high"));
        assert_eq!(levels.resolve(100, 100), Some(&"high"));
    }
}

#[test]
fn resolve_is_deterministic() {
    for levels in &[basic(), dynamic(), manual()] {
        for value in [0, 25, 33, 50, 67, 75, 100, 101] {
            assert_eq!(levels.resolve(value, 100), levels.resolve(value, 100));
        }
    }
}
