use whereami::source::Source;

fn ladder() {
    assert!(Source::Apple.priority() > Source::Wigle.priority());
    assert!(Source::Wigle.priority() > Source::BeaconDb.priority());
    assert!(Source::BeaconDb.priority() > Source::Manual.priority());
    assert!(Source::Manual.priority() > Source::Unknown.priority());

    for s in [
        Source::Apple,
        Source::Wigle,
        Source::BeaconDb,
        Source::Manual,
        Source::Unknown,
    ] {
        assert_eq!(Source::from_db_str(s.as_str()), s);
    }
    assert_eq!(Source::from_db_str("garbage"), Source::Unknown);
    assert_eq!(Source::from_db_str(""), Source::Unknown);
}

#[test]
fn db_source_priority_ladder() {
    ladder();
}

#[test]
fn source_source_priority_ladder() {
    ladder();
}

#[test]
fn source_priorities_and_names() {
    assert_eq!(Source::Apple.priority(), 40);
    assert_eq!(Source::Wigle.priority(), 30);
    assert_eq!(Source::BeaconDb.priority(), 20);
    assert_eq!(Source::Manual.priority(), 10);
    assert_eq!(Source::Unknown.priority(), 0);
    assert_eq!(Source::BeaconDb.as_str(), "beacondb");
    assert_eq!(Source::from_db_str("Apple"), Source::Unknown);
}
