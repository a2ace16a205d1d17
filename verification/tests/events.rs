use automata::card::Card;
use automata::error::Abort;
use automata::events::Event;
use automata::object::Object;
use automata::player::PlayerData;
use automata::registry::{AutomataPlayer, Registry};

fn player_with_object(program: [u8; 8]) -> PlayerData {
    let mut player = PlayerData::default();
    player.objects.push(Object::new(program));
    player
}

#[test]
fn event_words_layout() {
    let event = Event { owner: [11, 22], object_index: 3, delta: 40 };
    let mut words = vec![5];
    event.to_data(&mut words);
    assert_eq!(words, vec![5, 11, 22, (3 << 32) | 40]);
    assert_eq!(Event::from_data(&words, 1), Some((event, 4)));
    assert_eq!(Event::from_data(&words, 2), None);
    assert_eq!(Event::u64size(), 3);
}

#[test]
fn event_round_trip_up_to_32_bits() {
    let event = Event { owner: [u64::MAX, 0], object_index: 0xffff_ffff, delta: 0xffff_ffff };
    let mut words = Vec::new();
    event.to_data(&mut words);
    assert_eq!(Event::from_data(&words, 0), Some((event, 3)));
}

#[test]
fn progress_brings_the_event_closer() {
    let mut event = Event { owner: [1, 2], object_index: 0, delta: 40 };
    assert_eq!(event.get_delta(), 40);
    event.progress(15);
    assert_eq!(event, Event { owner: [1, 2], object_index: 0, delta: 25 });
}

#[test]
fn handling_applies_the_card_and_schedules_the_next() {
    let mut player = player_with_object([0, 1, 2, 3, 0, 1, 2, 3]);
    let event = Event { owner: [1, 2], object_index: 0, delta: 0 };
    let next = event.handle(20, &mut player);
    assert_eq!(next, Some(Event { owner: [1, 2], object_index: 0, delta: 40 }));
    assert_eq!(player.local.0, vec![20, 20, 20, 0, 2, 0, 0, 0]);
    assert_eq!(player.objects[0].get_modifier_index(), 1);
    assert_eq!(player.energy, 256);
}

#[test]
fn energy_drops_when_the_cycle_wraps() {
    let mut player = player_with_object([4; 8]);
    player.cards.push(Card::new(9, [0; 8]));
    let event = Event { owner: [1, 2], object_index: 0, delta: 0 };
    for _ in 0..7 {
        assert!(event.handle(1, &mut player).is_some());
        assert_eq!(player.energy, 256);
    }
    assert!(event.handle(1, &mut player).is_some());
    assert_eq!(player.objects[0].get_modifier_index(), 0);
    assert_eq!(player.energy, 255);
}

#[test]
fn restart_pending_costs_one_energy() {
    let mut player = player_with_object([0; 8]);
    player.objects[0].start_new_modifier(3, 1);
    player.objects[0].reset_halt_bit_to_restart();
    let event = Event { owner: [1, 2], object_index: 0, delta: 0 };
    assert_eq!(event.handle(9, &mut player).map(|e| e.delta), Some(20));
    assert_eq!(player.energy, 255);
    assert_eq!(player.objects[0].modifier_info, 9);
}

#[test]
fn without_energy_the_object_halts_and_nothing_follows() {
    let mut player = player_with_object([0, 1, 2, 3, 0, 1, 2, 3]);
    player.objects[0].start_new_modifier(4, 7);
    player.energy = 0;
    let before = player.clone();
    let event = Event { owner: [1, 2], object_index: 0, delta: 0 };
    assert_eq!(event.handle(20, &mut player), None);
    assert!(player.objects[0].is_halted());
    assert_eq!(player.objects[0].get_modifier_index(), 4);
    assert_eq!(player.local, before.local);
    assert_eq!(player.cards, before.cards);
    assert_eq!(player.energy, 0);
}

#[test]
fn halting_card_leaves_energy_alone() {
    let mut player = player_with_object([3; 8]);
    let event = Event { owner: [1, 2], object_index: 0, delta: 0 };
    assert_eq!(event.handle(20, &mut player), None);
    assert!(player.objects[0].is_halted());
    assert_eq!(player.energy, 256);
}

#[test]
fn fire_finds_the_owner() {
    let mut players = Registry::new();
    players.add(AutomataPlayer::new_from_pid([9, 9]));
    let mut owner = AutomataPlayer::new_from_pid([1, 2]);
    owner.data.objects.push(Object::new([0, 1, 2, 3, 0, 1, 2, 3]));
    players.add(owner);
    let event = Event { owner: [1, 2], object_index: 0, delta: 0 };
    assert_eq!(
        event.fire(20, &mut players),
        Ok(Some(Event { owner: [1, 2], object_index: 0, delta: 40 }))
    );
    assert_eq!(players.players[1].data.local.0, vec![20, 20, 20, 0, 2, 0, 0, 0]);
    assert_eq!(players.players[0].data.local.0, vec![30, 30, 0, 0, 2, 0, 0, 0]);
    assert_eq!(players.position(&[1, 2]), Some(1));
    assert_eq!(players.position(&[2, 1]), None);
}

#[test]
fn fire_aborts_on_unknown_owner_object_or_card() {
    let mut players = Registry::new();
    let mut owner = AutomataPlayer::new_from_pid([1, 2]);
    owner.data.objects.push(Object::new([200, 1, 2, 3, 0, 1, 2, 3]));
    players.add(owner);
    let before = players.clone();
    let unknown_owner = Event { owner: [5, 5], object_index: 0, delta: 0 };
    assert_eq!(unknown_owner.fire(1, &mut players), Err(Abort::Fault));
    let unknown_object = Event { owner: [1, 2], object_index: 1, delta: 0 };
    assert_eq!(unknown_object.fire(1, &mut players), Err(Abort::Fault));
    let unknown_card = Event { owner: [1, 2], object_index: 0, delta: 0 };
    assert_eq!(unknown_card.fire(1, &mut players), Err(Abort::Fault));
    assert_eq!(players, before);
}
