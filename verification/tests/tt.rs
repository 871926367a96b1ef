use yukari::tt::{Entry, TranspositionTable};

#[test]
fn basic() {
    let mut tt = TranspositionTable::new(2 * std::mem::size_of::<Entry<&str>>());
    tt.set(0, "hi");
    tt.set(3, "no");
    tt.set(4, "bye");
    assert_eq!(tt.get(0), None);
}

#[test]
fn get_after_set_finds_the_value() {
    let mut tt: TranspositionTable<u32> = TranspositionTable::new(1024);
    tt.set(12345, 7);
    assert_eq!(tt.get(12345), Some(&7));
}

#[test]
fn set_in_another_slot_keeps_the_value() {
    let mut tt: TranspositionTable<u32> = TranspositionTable::new(4 * std::mem::size_of::<Entry<u32>>());
    tt.set(1, 10);
    tt.set(2, 20);
    assert_eq!(tt.get(1), Some(&10));
    assert_eq!(tt.get(2), Some(&20));
    // Key 5 shares the slot of key 1 in a table of four entries and replaces it.
    tt.set(5, 50);
    assert_eq!(tt.get(1), None);
    assert_eq!(tt.get(5), Some(&50));
    assert_eq!(tt.get(2), Some(&20));
}

#[test]
fn a_table_too_small_for_one_entry_finds_nothing() {
    let mut tt: TranspositionTable<u32> = TranspositionTable::new(1);
    tt.set(1, 10);
    assert_eq!(tt.get(1), None);
}

#[test]
fn clear_forgets_entries() {
    let mut tt: TranspositionTable<u32> = TranspositionTable::new(1024);
    tt.set(9, 90);
    tt.clear();
    assert_eq!(tt.get(9), None);
}

#[test]
fn two_stores_in_one_slot_keep_only_the_second() {
    let mut tt: TranspositionTable<u32> = TranspositionTable::new(2 * std::mem::size_of::<Entry<u32>>());
    tt.set(4, 40);
    tt.set(6, 60);
    assert_eq!(tt.get(4), None);
    assert_eq!(tt.get(6), Some(&60));
    tt.set(7, 70);
    assert_eq!(tt.get(6), Some(&60));
    assert_eq!(tt.get(7), Some(&70));
}
