use barg::Storage;

#[test]
fn empty_storage_gives_none() {
    let mut storage: Storage<i32, u32> = Storage::new(-1);
    assert_eq!(storage.get(0), -1);
    assert_eq!(storage.get(1000), -1);
    assert_eq!(storage.get(u32::MAX - 1), -1);
}

#[test]
fn set_then_get() {
    let mut storage: Storage<String, u8> = Storage::new(String::from("none"));
    storage.set(3, String::from("three"));
    assert_eq!(storage.get(3), "three");
    assert_eq!(storage.get(0), "none");
    assert_eq!(storage.get(2), "none");
    assert_eq!(storage.get(4), "none");
    storage.set(0, String::from("zero"));
    storage.set(3, String::from("drei"));
    assert_eq!(storage.get(0), "zero");
    assert_eq!(storage.get(3), "drei");
    assert_eq!(storage.get(1), "none");
}

#[test]
fn set_below_the_highest_keeps_the_others() {
    let mut storage: Storage<u64, u16> = Storage::new(0);
    storage.set(5, 50);
    storage.set(2, 20);
    storage.set(9, 90);
    let got: Vec<u64> = (0..11).map(|i| storage.get(i)).collect();
    assert_eq!(got, vec![0, 0, 20, 0, 0, 50, 0, 0, 0, 90, 0]);
}

#[test]
fn set_grows_the_storage_and_fills_with_none() {
    let mut s: Storage<i32, u32> = Storage::new(-1);
    s.set(5, 9);
    assert_eq!(s.get(5), 9);
    assert_eq!(s.get(0), -1);
    assert_eq!(s.get(4), -1);
    assert_eq!(s.get(6), -1);
}

#[test]
fn entity_zero_has_its_own_slot() {
    let mut s: Storage<i32, u32> = Storage::new(-1);
    s.set(0, 5);
    assert_eq!(s.get(0), 5);
    assert_eq!(s.get(1), -1);
}

#[test]
fn entity_beyond_all_that_were_set_has_none() {
    let mut s: Storage<i32, u32> = Storage::new(-1);
    s.set(3, 7);
    assert_eq!(s.get(100), -1);
}

#[test]
fn the_last_set_wins() {
    let mut s: Storage<i32, u32> = Storage::new(-1);
    s.set(2, 4);
    s.set(2, 8);
    assert_eq!(s.get(2), 8);
}

#[test]
fn access_by_number_is_access_by_entity() {
    let mut s: Storage<i32, u16> = Storage::new(-1);
    s.set_at(5, 9);
    assert_eq!(s.get(5), 9);
    s.set(7, 3);
    assert_eq!(s.get_at(7), 3);
    assert_eq!(s.get_at(6), -1);
    assert_eq!(s.get_at(u32::MAX - 2), -1);
}
