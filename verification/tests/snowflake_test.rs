use engine::snowflake::{SnowflakeGenerator, EPOCH, MACHINE_SHIFT, MAX_MACHINE_ID, MAX_SEQUENCE};

#[test]
fn test_snowflake_ids_are_unique() {
    let mut generator = SnowflakeGenerator::new(1, 1);
    let mut ids = std::collections::HashSet::new();
    for _ in 0..10_000 {
        let id = generator.next_id();
        assert!(ids.insert(id), "Duplicate ID: {}", id);
    }
}

#[test]
fn test_snowflake_ids_are_time_sortable() {
    let mut generator = SnowflakeGenerator::new(1, 1);
    let id1 = generator.next_id();
    let id2 = generator.next_id();
    let id3 = generator.next_id();
    assert!(id1 < id2);
    assert!(id2 < id3);
}

#[test]
fn test_snowflake_encodes_machine_and_datacenter() {
    let mut gen1 = SnowflakeGenerator::new(1, 1);
    let mut gen2 = SnowflakeGenerator::new(2, 1);
    let id1 = gen1.next_id();
    let id2 = gen2.next_id();
    assert_ne!(id1, id2);
    assert_eq!((id1 >> MACHINE_SHIFT) & MAX_MACHINE_ID, 1);
    assert_eq!((id2 >> MACHINE_SHIFT) & MAX_MACHINE_ID, 2);
}

#[test]
fn next_id_at_packs_the_reading() {
    let mut g = SnowflakeGenerator::new(3, 2);
    let t = EPOCH + 5;
    assert_eq!(g.next_id_at(t), (5 << 22) | (2 << 17) | (3 << 12));
    assert_eq!(g.next_id_at(t), (5 << 22) | (2 << 17) | (3 << 12) | 1, "same millisecond: next sequence");
    assert_eq!(g.next_id_at(t + 1), (6 << 22) | (2 << 17) | (3 << 12), "later millisecond: sequence 0");
}

#[test]
fn next_id_at_wraps_the_sequence_of_one_millisecond() {
    let mut g = SnowflakeGenerator::new(0, 0);
    let t = EPOCH + 9;
    for _ in 0..=MAX_SEQUENCE {
        g.next_id_at(t);
    }
    assert_eq!(g.next_id_at(t), 9 << 22);
}
