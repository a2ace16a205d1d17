use automata::object::Object;

fn status(object: &Object) -> u64 {
    (object.modifier_info >> 56) & 0xff
}

#[test]
fn new_object_runs_at_the_start() {
    let object = Object::new([0, 1, 2, 3, 0, 1, 2, 3]);
    assert_eq!(object.modifier_info, 0);
    assert_eq!(object.cards, [0, 1, 2, 3, 0, 1, 2, 3]);
    assert_eq!(object.attributes, [0, 0, 0, 0]);
    assert!(!object.is_halted());
    assert!(!object.is_restarting());
    assert_eq!(object.get_modifier_index(), 0);
}

#[test]
fn start_new_modifier_packs_pointer_and_tick() {
    let mut object = Object::new([0; 8]);
    object.start_new_modifier(5, 1234);
    assert_eq!(object.modifier_info, (5 << 48) | 1234);
    assert_eq!(object.get_modifier_index(), 5);
    assert_eq!(status(&object), 0);
    assert_eq!(object.modifier_info & 0xffff_ffff_ffff, 1234);
}

#[test]
fn halt_sets_bit_56_and_keeps_the_rest() {
    let mut object = Object::new([0; 8]);
    object.start_new_modifier(3, 99);
    object.halt();
    assert_eq!(object.modifier_info, (1 << 56) | (3 << 48) | 99);
    assert!(object.is_halted());
    assert!(!object.is_restarting());
    assert_eq!(object.get_modifier_index(), 3);
    object.halt();
    assert_eq!(object.modifier_info, (1 << 56) | (3 << 48) | 99);
}

#[test]
fn restart_pending_sets_bit_57() {
    let mut object = Object::new([0; 8]);
    object.start_new_modifier(6, 42);
    object.reset_halt_bit_to_restart();
    assert_eq!(object.modifier_info, (1 << 57) | (6 << 48) | 42);
    assert!(object.is_restarting());
    assert!(!object.is_halted());
    assert_eq!(status(&object), 2);
}

#[test]
fn status_is_always_one_of_the_legal_values() {
    let mut object = Object::new([0; 8]);
    let mut seen = vec![status(&object)];
    object.halt();
    seen.push(status(&object));
    object.reset_halt_bit_to_restart();
    seen.push(status(&object));
    object.halt();
    seen.push(status(&object));
    object.restart(10);
    seen.push(status(&object));
    object.reset_halt_bit_to_restart();
    seen.push(status(&object));
    object.reset_halt_bit_to_restart();
    seen.push(status(&object));
    assert_eq!(seen, vec![0, 1, 3, 1, 0, 2, 2]);
    assert!(seen.iter().all(|s| *s <= 3));
}

#[test]
fn restart_pending_keeps_the_halted_bit() {
    let mut object = Object::new([0; 8]);
    object.start_new_modifier(6, 42);
    object.halt();
    object.reset_halt_bit_to_restart();
    assert_eq!(object.modifier_info, (1 << 57) | (1 << 56) | (6 << 48) | 42);
    assert_eq!(status(&object), 3);
    assert!(!object.is_halted());
    assert!(!object.is_restarting());
    assert_eq!(object.get_modifier_index(), 6);
    object.reset_halt_bit_to_restart();
    assert_eq!(object.modifier_info, (3 << 56) | (6 << 48) | 42);
}

#[test]
fn restart_runs_from_the_start() {
    let mut object = Object::new([0; 8]);
    object.start_new_modifier(7, 5);
    object.halt();
    object.restart(77);
    assert_eq!(object.modifier_info, 77);
    assert_eq!(object.get_modifier_index(), 0);
    assert!(!object.is_halted());
}

#[test]
fn reset_modifier_replaces_the_program_only() {
    let mut object = Object::new([0; 8]);
    object.start_new_modifier(2, 9);
    object.reset_modifier([7, 6, 5, 4, 3, 2, 1, 0]);
    assert_eq!(object.cards, [7, 6, 5, 4, 3, 2, 1, 0]);
    assert_eq!(object.modifier_info, (2 << 48) | 9);
}

#[test]
fn object_words_layout() {
    let object = Object {
        modifier_info: (1 << 56) | (3 << 48) | 20,
        cards: [0, 1, 2, 3, 0, 1, 2, 3],
        attributes: [5, 1, 2, 3],
    };
    let mut words = Vec::new();
    object.to_data(&mut words);
    assert_eq!(
        words,
        vec![(1 << 56) | (3 << 48) | 20, 5 | (1 << 16) | (2 << 32) | (3 << 48), 0x0302_0100_0302_0100]
    );
    assert_eq!(Object::from_data(&words, 0), Some((object, 3)));
    assert_eq!(Object::from_data(&words, 1), None);
}

#[test]
fn object_round_trip_with_wide_attributes() {
    let object = Object {
        modifier_info: u64::MAX,
        cards: [255, 0, 17, 3, 200, 1, 2, 128],
        attributes: [129, 65535, 256, 0],
    };
    let mut words = vec![0, 0];
    object.to_data(&mut words);
    assert_eq!(Object::from_data(&words, 2), Some((object, 5)));
}
