use yukari::ttentry::{bucket_index, probe_slot, replacement_slot, update_history, write_slot, TtData, TtFlags};

fn slot(key: u16, depth: u8, score: i16) -> TtData {
    TtData { key, flags: TtFlags::Exact, depth, score, m: None }
}

#[test]
fn bucket_index_scales_the_key() {
    assert_eq!(bucket_index(1 << 63, 10), 5);
    assert_eq!(bucket_index(u64::MAX, 1), 0);
    assert_eq!(bucket_index(u64::MAX, 1000), 999);
    assert_eq!(bucket_index(0, 1000), 0);
    assert_eq!(bucket_index(12345, 0), 0);
}

#[test]
fn replacement_prefers_the_same_key_then_the_shallowest() {
    let slots = [slot(1, 5, 0), slot(2, 3, 0), slot(9, 9, 0), slot(4, 3, 0)];
    assert_eq!(replacement_slot(&slots, 9), 2);
    assert_eq!(replacement_slot(&slots, 7), 1);
    let slots = [slot(1, 0, 0), slot(2, 3, 0), slot(3, 1, 0), slot(4, 0, 0)];
    assert_eq!(replacement_slot(&slots, 7), 0);
}

#[test]
fn mate_scores_are_stored_from_the_node() {
    let mut slots = [slot(1, 5, 0), slot(2, 3, 0), slot(3, 4, 0), slot(4, 6, 0)];
    write_slot(&mut slots, 8, slot(8, 7, 9990), 4);
    assert_eq!(slots[1].key, 8);
    assert_eq!(slots[1].score, 9994);
    assert_eq!(slots[1].depth, 7);
    let found = probe_slot(&slots, 8, 6).unwrap();
    assert_eq!(found.score, 9988);
    write_slot(&mut slots, 8, slot(8, 2, -9990), 4);
    assert_eq!(slots[1].score, -9994);
    assert_eq!(probe_slot(&slots, 8, 4).unwrap().score, -9990);
    write_slot(&mut slots, 3, slot(3, 9, 150), 10);
    assert_eq!(slots[2].score, 150);
    assert_eq!(probe_slot(&slots, 3, 10).unwrap().score, 150);
    assert!(probe_slot(&slots, 77, 0).is_none());
}

#[test]
fn history_updates_saturate() {
    let mut entry: i16 = 0;
    update_history(&mut entry, 1000);
    assert_eq!(entry, 1000);
    let mut entry: i16 = 100;
    update_history(&mut entry, 300);
    assert_eq!(entry, 399);
    let mut entry: i16 = 16384;
    update_history(&mut entry, 16384);
    assert_eq!(entry, 16384);
    let mut entry: i16 = -16384;
    update_history(&mut entry, 50000);
    assert_eq!(entry, 16384);
    let mut entry: i16 = 8000;
    update_history(&mut entry, -20000);
    assert_eq!(entry, -16384);
}
