use automata::storage::Storage;

#[test]
fn unwritten_key_reads_empty() {
    let storage = Storage::new();
    assert_eq!(storage.get(&[0, 0, 0, 0]), Vec::<u64>::new());
}

#[test]
fn set_then_get() {
    let mut storage = Storage::new();
    storage.set(&[1, 2, 3, 4], vec![10, 20, 30]);
    storage.set(&[1, 2, 3, 5], vec![7]);
    assert_eq!(storage.get(&[1, 2, 3, 4]), vec![10, 20, 30]);
    assert_eq!(storage.get(&[1, 2, 3, 5]), vec![7]);
    assert_eq!(storage.get(&[4, 3, 2, 1]), Vec::<u64>::new());
}

#[test]
fn set_replaces_what_was_there() {
    let mut storage = Storage::new();
    storage.set(&[1, 2, 3, 4], vec![10, 20, 30]);
    storage.set(&[9, 9, 9, 9], vec![1]);
    storage.set(&[1, 2, 3, 4], vec![5]);
    assert_eq!(storage.get(&[1, 2, 3, 4]), vec![5]);
    assert_eq!(storage.get(&[9, 9, 9, 9]), vec![1]);
    assert_eq!(storage.entries.len(), 2);
}
