use automata::convention::EventQueue;
use automata::events::Event;
use automata::registry::{AutomataPlayer, Registry};
use automata::storage::Storage;

fn event(delta: u64) -> Event {
    Event { owner: [1, 2], object_index: 0, delta }
}

fn deltas(queue: &EventQueue) -> Vec<u64> {
    queue.list.iter().map(|e| e.delta).collect()
}

fn absolute(queue: &EventQueue) -> Vec<u64> {
    let mut sum = 0;
    queue
        .list
        .iter()
        .map(|e| {
            sum += e.delta;
            sum
        })
        .collect()
}

#[test]
fn new_queue_is_empty_at_tick_zero() {
    let queue = EventQueue::new();
    assert_eq!(queue.counter, 0);
    assert!(queue.list.is_empty());
}

#[test]
fn insert_relinks_the_successor() {
    let mut queue = EventQueue::new();
    queue.insert(event(5));
    queue.insert(event(8));
    queue.insert(event(15));
    assert_eq!(deltas(&queue), vec![5, 3, 7]);
    queue.insert(event(10));
    assert_eq!(deltas(&queue), vec![5, 3, 2, 5]);
    assert_eq!(absolute(&queue), vec![5, 8, 10, 15]);
}

#[test]
fn insert_at_the_end_keeps_the_remainder() {
    let mut queue = EventQueue::new();
    queue.insert(event(5));
    queue.insert(event(20));
    assert_eq!(deltas(&queue), vec![5, 15]);
}

#[test]
fn insert_before_the_head_shortens_the_head() {
    let mut queue = EventQueue::new();
    queue.insert(event(9));
    queue.insert(event(4));
    assert_eq!(deltas(&queue), vec![4, 5]);
}

#[test]
fn equal_ticks_fire_in_insertion_order() {
    let mut queue = EventQueue::new();
    queue.insert(Event { owner: [1, 1], object_index: 0, delta: 7 });
    queue.insert(Event { owner: [2, 2], object_index: 1, delta: 7 });
    queue.insert(Event { owner: [3, 3], object_index: 2, delta: 7 });
    let owners: Vec<u64> = queue.list.iter().map(|e| e.owner[0]).collect();
    assert_eq!(owners, vec![1, 2, 3]);
    assert_eq!(deltas(&queue), vec![7, 0, 0]);
}

#[test]
fn partial_sums_never_decrease() {
    let mut queue = EventQueue::new();
    for delta in [40u64, 3, 17, 3, 0, 99, 17, 1] {
        queue.insert(event(delta));
    }
    let sums = absolute(&queue);
    assert_eq!(sums, vec![0, 1, 3, 3, 17, 17, 40, 99]);
    assert!(sums.windows(2).all(|w| w[0] <= w[1]));
}

#[test]
fn tick_without_events_only_advances_the_clock() {
    let mut queue = EventQueue::new();
    let mut players = Registry::new();
    let storage = Storage::new();
    assert_eq!(queue.tick(&mut players, &storage), Ok(()));
    assert_eq!(queue.counter, 1);
    assert!(queue.list.is_empty());
}

#[test]
fn tick_brings_the_head_one_tick_closer() {
    let mut queue = EventQueue::new();
    queue.insert(event(3));
    queue.insert(event(5));
    let mut players = Registry::new();
    let storage = Storage::new();
    assert_eq!(queue.tick(&mut players, &storage), Ok(()));
    assert_eq!(deltas(&queue), vec![2, 2]);
    assert_eq!(queue.counter, 1);
}

#[test]
fn tick_aborts_on_an_event_without_owner() {
    let mut queue = EventQueue::new();
    queue.insert(event(0));
    let mut players = Registry::new();
    let storage = Storage::new();
    assert_eq!(queue.tick(&mut players, &storage), Err(automata::error::Abort::Fault));
    assert_eq!(queue.counter, 0);
}

#[test]
fn far_events_share_the_bucket_of_now_but_wait_in_memory() {
    let far = 1u64 << 28;
    let mut queue = EventQueue::new();
    queue.counter = 5;
    assert_eq!(EventQueue::bucket_key(5), [0xfffffffe, 5, 0, 0xfffffffe]);
    assert_eq!(EventQueue::bucket_key(5 + far), EventQueue::bucket_key(5));
    queue.insert(event(far));
    let mut players = Registry::new();
    players.add(AutomataPlayer::new_from_pid([1, 2]));
    let storage = Storage::new();
    assert_eq!(queue.tick(&mut players, &storage), Ok(()));
    assert_eq!(queue.counter, 6);
    assert_eq!(deltas(&queue), vec![far - 1]);
    assert_eq!(players.players[0].data.energy, 256);
}

#[test]
fn store_files_events_by_due_tick() {
    let far = 1u64 << 28;
    let mut queue = EventQueue::new();
    queue.counter = 7;
    queue.insert(Event { owner: [1, 1], object_index: 0, delta: 0 });
    queue.insert(Event { owner: [2, 2], object_index: 1, delta: 0 });
    queue.insert(Event { owner: [3, 3], object_index: 2, delta: 4 });
    queue.insert(Event { owner: [4, 4], object_index: 3, delta: far });
    let mut storage = Storage::new();
    storage.set(&EventQueue::bucket_key(11), vec![9, 9, 9]);
    queue.store(&mut storage);
    assert!(queue.list.is_empty());
    assert_eq!(queue.counter, 7);
    assert_eq!(
        storage.get(&[0xfffffffe, 7, 0, 0xfffffffe]),
        vec![1, 1, 0, 2, 2, 1 << 32, 4, 4, (3 << 32) | (far - 4)]
    );
    assert_eq!(storage.get(&[0xfffffffe, 11, 0, 0xfffffffe]), vec![9, 9, 9, 3, 3, (2 << 32) | 4]);
    assert_eq!(storage.get(&[0xfffffffe, 8, 0, 0xfffffffe]), Vec::<u64>::new());
}

#[test]
fn queue_word_is_the_tick() {
    let mut queue = EventQueue::new();
    queue.counter = 77;
    queue.insert(event(3));
    let mut words = vec![1000];
    queue.to_data(&mut words);
    assert_eq!(words, vec![1000, 77]);
    let (read, next) = EventQueue::from_data(&words, 1).unwrap();
    assert_eq!(next, 2);
    assert_eq!(read.counter, 77);
    assert!(read.list.is_empty());
    assert!(EventQueue::from_data(&words, 2).is_none());
}

#[test]
fn due_events_are_the_stored_ones_then_the_heads() {
    let mut queue = EventQueue::new();
    queue.counter = 9;
    queue.insert(Event { owner: [1, 1], object_index: 0, delta: 0 });
    queue.insert(Event { owner: [2, 2], object_index: 1, delta: 0 });
    queue.insert(Event { owner: [3, 3], object_index: 2, delta: 1 });
    let mut storage = Storage::new();
    storage.set(&EventQueue::bucket_key(9), vec![7, 7, (5 << 32) | 3, 8, 8, 0, 99]);
    storage.set(&EventQueue::bucket_key(10), vec![6, 6, 0]);
    let due = queue.due_events(&storage);
    assert_eq!(
        due,
        vec![
            Event { owner: [7, 7], object_index: 5, delta: 3 },
            Event { owner: [8, 8], object_index: 0, delta: 0 },
            Event { owner: [1, 1], object_index: 0, delta: 0 },
            Event { owner: [2, 2], object_index: 1, delta: 0 },
        ]
    );
    assert!(EventQueue::new().due_events(&Storage::new()).is_empty());
}

#[test]
fn bucket_keys_follow_the_due_ticks() {
    let far = 1u64 << 28;
    let mut queue = EventQueue::new();
    queue.counter = 7;
    for delta in [0, 0, 4, far, far + 5] {
        queue.insert(event(delta));
    }
    let slots: Vec<u64> = queue.bucket_keys().iter().map(|key| key[1]).collect();
    assert_eq!(slots, vec![7, 7, 11, 7, 12]);
    assert!(queue.bucket_keys().iter().all(|key| key[0] == 0xfffffffe && key[2] == 0 && key[3] == 0xfffffffe));
}
