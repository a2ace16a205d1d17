use automata::card::Card;
use automata::error::ERROR_NOT_ENOUGH_BALANCE;
use automata::object::Object;
use automata::player::{Attributes, PlayerData};
use automata::registry::AutomataPlayer;

fn player_with_object(program: [u8; 8]) -> PlayerData {
    let mut player = PlayerData::default();
    player.objects.push(Object::new(program));
    player
}

#[test]
fn default_player() {
    let player = PlayerData::default();
    assert_eq!(player.energy, 256);
    assert_eq!(player.cost_info, 5);
    assert_eq!(player.current_cost, 0);
    assert_eq!(player.redeem_info, [0; 8]);
    assert!(player.objects.is_empty());
    assert_eq!(player.local.0, vec![30, 30, 0, 0, 2, 0, 0, 0]);
    assert_eq!(player.cards.len(), 4);
    assert_eq!(player.cards[3], Card::new(40, [10, 0, -30, 0, 20, 0, 0, 0]));
    assert_eq!(Attributes::default_local().0, vec![30, 30, 0, 0, 2, 0, 0, 0]);
}

#[test]
fn cost_doubles_every_five_payments() {
    let mut player = PlayerData::default();
    player.local.0[7] = 100;
    let mut paid = Vec::new();
    for _ in 0..16 {
        let before = player.local.0[7];
        assert_eq!(player.pay_cost(), Ok(()));
        paid.push(before - player.local.0[7]);
    }
    assert_eq!(paid, vec![0, 0, 0, 0, 0, 1, 1, 1, 1, 1, 2, 2, 2, 2, 2, 4]);
    assert_eq!(player.current_cost, 4);
    assert_eq!(player.cost_info, 4);
    assert_eq!(player.local.0[7], 100 - 5 - 10 - 4);
}

#[test]
fn cost_becomes_one_after_the_fifth_payment() {
    let mut player = PlayerData::default();
    for round in 1..=5u16 {
        assert_eq!(player.current_cost, 0);
        assert_eq!(player.pay_cost(), Ok(()));
        assert_eq!(player.energy, 256 + 20 * round);
    }
    assert_eq!(player.current_cost, 1);
    assert_eq!(player.cost_info, 5);
}

#[test]
fn pay_cost_fails_without_treasure_and_changes_nothing() {
    let mut player = PlayerData::default();
    player.current_cost = 8;
    player.local.0[7] = 7;
    let before = player.clone();
    assert_eq!(player.pay_cost(), Err(ERROR_NOT_ENOUGH_BALANCE));
    assert_eq!(player, before);
    player.local.0[7] = 8;
    assert_eq!(player.pay_cost(), Ok(()));
    assert_eq!(player.local.0[7], 0);
}

#[test]
fn energy_saturates() {
    let mut player = PlayerData::default();
    player.energy = 0xffff - 19;
    assert_eq!(player.pay_cost(), Ok(()));
    assert_eq!(player.energy, 0xffff);
    assert_eq!(player.pay_cost(), Ok(()));
    assert_eq!(player.energy, 0xffff);
    player.energy = 0xffff - 20;
    assert_eq!(player.pay_cost(), Ok(()));
    assert_eq!(player.energy, 0xffff);
}

#[test]
fn cost_balance_debits_and_credits() {
    let mut player = PlayerData::default();
    assert_eq!(player.cost_balance(-50), Ok(()));
    assert_eq!(player.local.0[7], 50);
    assert_eq!(player.cost_balance(20), Ok(()));
    assert_eq!(player.local.0[7], 30);
    assert_eq!(player.cost_balance(31), Err(ERROR_NOT_ENOUGH_BALANCE));
    assert_eq!(player.local.0[7], 30);
    assert_eq!(player.cost_balance(30), Ok(()));
    assert_eq!(player.local.0[7], 0);
}

#[test]
fn upgrade_raises_level_and_feature() {
    let mut player = player_with_object([0; 8]);
    assert!(player.can_upgrade(0, 2));
    player.upgrade_object(0, 2);
    assert_eq!(player.objects[0].attributes, [1, 0, 1, 0]);
    player.upgrade_object(0, 0);
    assert_eq!(player.objects[0].attributes, [3, 0, 1, 0]);
    assert!(!player.can_upgrade(1, 0));
    assert!(!player.can_upgrade(0, 4));
}

#[test]
fn level_stays_below_the_cap() {
    let mut player = player_with_object([0; 8]);
    player.objects[0].attributes = [127, 0, 0, 0];
    player.upgrade_object(0, 3);
    assert_eq!(player.objects[0].attributes, [128, 0, 0, 1]);
    assert!(player.objects[0].attributes[0] < 129);
    assert!(!player.can_upgrade(0, 3));
    player.objects[0].attributes = [126, 0, 0, 0];
    player.upgrade_object(0, 0);
    assert_eq!(player.objects[0].attributes[0], 128);
    assert!(!player.can_upgrade(0, 0));
}

#[test]
fn apply_modifier_adds_or_refuses() {
    let mut player = PlayerData::default();
    assert!(player.apply_modifier(&Card::new(20, [-10, -10, 20, 0, 0, 0, 0, 0])));
    assert_eq!(player.local.0, vec![20, 20, 20, 0, 2, 0, 0, 0]);
    assert!(!player.apply_modifier(&Card::new(40, [10, 0, -30, 0, 20, 0, 0, 0])));
    assert_eq!(player.local.0, vec![20, 20, 20, 0, 2, 0, 0, 0]);
    assert!(player.apply_modifier(&Card::new(1, [-20, -20, -20, 0, -2, 0, 0, 0])));
    assert_eq!(player.local.0, vec![0; 8]);
    assert!(player.local.0.iter().all(|x| *x >= 0));
}

#[test]
fn attributes_apply_on_common_components() {
    let mut held = Attributes(vec![5, 5, 5]);
    assert!(held.apply_modifier(&Attributes(vec![-5, 1])));
    assert_eq!(held.0, vec![0, 6, 5]);
    assert!(!held.apply_modifier(&Attributes(vec![0, 0, -6, 100])));
    assert_eq!(held.0, vec![0, 6, 5]);
}

#[test]
fn applying_a_card_advances_the_pointer() {
    let mut player = player_with_object([0, 1, 2, 3, 0, 1, 2, 3]);
    assert!(player.can_fire(0));
    assert_eq!(player.apply_object_card(0, 20), Some(40));
    assert_eq!(player.local.0, vec![20, 20, 20, 0, 2, 0, 0, 0]);
    assert_eq!(player.objects[0].get_modifier_index(), 1);
    assert_eq!(player.objects[0].modifier_info, (1 << 48) | 20);
    assert_eq!(player.energy, 256);
}

#[test]
fn pointer_wraps_after_the_eighth_card() {
    let mut player = player_with_object([0; 8]);
    player.cards.push(Card::new(9, [0; 8]));
    player.objects[0].cards = [4; 8];
    for step in 1..=7u64 {
        assert_eq!(player.apply_object_card(0, step), Some(9));
        assert_eq!(player.objects[0].get_modifier_index(), step);
    }
    assert_eq!(player.apply_object_card(0, 8), Some(9));
    assert_eq!(player.objects[0].get_modifier_index(), 0);
    assert!(player.objects[0].get_modifier_index() < 8);
    assert_eq!(player.objects[0].cards.len(), 8);
}

#[test]
fn failing_card_halts_the_object() {
    let mut player = player_with_object([3; 8]);
    player.objects[0].start_new_modifier(2, 5);
    assert_eq!(player.apply_object_card(0, 40), None);
    assert!(player.objects[0].is_halted());
    assert_eq!(player.objects[0].get_modifier_index(), 2);
    assert_eq!(player.objects[0].modifier_info & 0xffff_ffff_ffff, 5);
    assert_eq!(player.local.0, vec![30, 30, 0, 0, 2, 0, 0, 0]);
}

#[test]
fn restart_pending_object_starts_anew_without_applying() {
    let mut player = player_with_object([1, 0, 0, 0, 0, 0, 0, 0]);
    player.objects[0].start_new_modifier(5, 3);
    player.objects[0].reset_halt_bit_to_restart();
    assert_eq!(player.apply_object_card(0, 60), Some(40));
    assert_eq!(player.objects[0].modifier_info, 60);
    assert_eq!(player.local.0, vec![30, 30, 0, 0, 2, 0, 0, 0]);
}

#[test]
fn restarting_a_halted_object() {
    let mut player = player_with_object([3; 8]);
    player.objects[0].start_new_modifier(2, 5);
    player.objects[0].halt();
    assert!(player.can_restart(0, &[0, 0, 1, 0, 0, 0, 0, 0]));
    assert_eq!(player.restart_object_card(0, [0, 0, 1, 0, 0, 0, 0, 0], 50), Some(40));
    assert_eq!(player.objects[0].cards, [0, 0, 1, 0, 0, 0, 0, 0]);
    assert_eq!(player.objects[0].modifier_info, 50);
}

#[test]
fn restarting_a_running_object_marks_it() {
    let mut player = player_with_object([3; 8]);
    player.objects[0].start_new_modifier(2, 5);
    assert_eq!(player.restart_object_card(0, [1; 8], 50), None);
    assert_eq!(player.objects[0].cards, [1; 8]);
    assert!(player.objects[0].is_restarting());
    assert_eq!(player.objects[0].modifier_info, (2 << 56) | (2 << 48) | 5);
    assert!(!player.can_restart(1, &[1; 8]));
}

#[test]
fn firing_needs_owned_cards() {
    let player = player_with_object([9, 0, 0, 0, 0, 0, 0, 0]);
    assert!(!player.can_fire(0));
    let player = player_with_object([0, 9, 0, 0, 0, 0, 0, 0]);
    assert!(!player.can_fire(0));
    let player = player_with_object([3, 9, 0, 0, 0, 0, 0, 0]);
    assert!(player.can_fire(0));
    assert!(!player.can_fire(1));
}

#[test]
fn generate_card_uses_the_second_random_word() {
    let mut player = PlayerData::default();
    player.generate_card(&[0, 0x76543210, 0, 0]);
    assert_eq!(player.cards.len(), 5);
    assert_eq!(player.cards[4], Card::new(415, [2, 3, 0, 0, 0, 0, 0, 0]));
}

#[test]
fn player_words_layout() {
    let mut player = PlayerData::default();
    player.objects.push(Object::new([0, 1, 2, 3, 0, 1, 2, 3]));
    player.redeem_info = [1, 0, 0, 0, 0, 0, 0, 2];
    player.current_cost = 4;
    player.local.0[3] = -1;
    let mut words = Vec::new();
    player.to_data(&mut words);
    let mut expected = vec![(256u64 << 48) | (5 << 32) | 4, 0x0200_0000_0000_0001, 1];
    expected.extend([0, 0, 0x0302_0100_0302_0100]);
    expected.push(8);
    expected.extend([30, 30, 0, u64::MAX, 2, 0, 0, 0]);
    expected.push(4);
    expected.extend([20, 0x0000_0000_0014_f6f6]);
    expected.extend([40, 0x0000_0000_00f6_001e]);
    expected.extend([40, 0x0000_0000_00f6_1e00]);
    expected.extend([40, 0x0000_0014_00e2_000a]);
    assert_eq!(words, expected);
}

#[test]
fn player_round_trip() {
    let mut player = PlayerData::default();
    player.objects.push(Object::new([0, 1, 2, 3, 0, 1, 2, 3]));
    player.objects.push(Object::new([3; 8]));
    player.objects[1].halt();
    player.objects[1].attributes = [128, 3, 4, 5];
    player.energy = 0xffff;
    player.cost_info = 3;
    player.current_cost = u32::MAX;
    player.redeem_info = [1, 2, 3, 4, 5, 6, 7, 255];
    player.local.0 = vec![0, i64::MAX, 5, 6, 7, 8, 9, 1 << 40];
    player.generate_card(&[0, 0x10323377, 0, 0]);
    let mut words = vec![99];
    player.to_data(&mut words);
    words.push(1234);
    let (read, next) = PlayerData::from_data(&words, 1).unwrap();
    assert_eq!(read, player);
    assert_eq!(next, words.len() - 1);
}

#[test]
fn player_from_truncated_words_fails() {
    let player = PlayerData::default();
    let mut words = Vec::new();
    player.to_data(&mut words);
    for cut in 0..words.len() {
        assert!(PlayerData::from_data(&words[..cut].to_vec(), 0).is_none());
    }
    assert!(PlayerData::from_data(&words, 0).is_some());
    assert!(PlayerData::from_data(&words, 1).is_none());
    assert!(PlayerData::from_data(&vec![0, 0, u64::MAX], 0).is_none());
    assert!(PlayerData::from_data(&vec![0, 0, 0, u64::MAX], 0).is_none());
    assert!(PlayerData::from_data(&vec![0, 0, 0, 0, u64::MAX], 0).is_none());
    assert_eq!(PlayerData::from_data(&vec![0, 0, 0, 0, 0], 0).map(|r| r.1), Some(5));
}

#[test]
fn nonce_counts_matching_transactions() {
    let mut player = AutomataPlayer::new_from_pid([3, 4]);
    assert_eq!(player.player_id, [3, 4]);
    assert_eq!(player.nonce, 0);
    assert!(!player.check_and_inc_nonce(1));
    assert_eq!(player.nonce, 0);
    assert!(player.check_and_inc_nonce(0));
    assert_eq!(player.nonce, 1);
}

#[test]
fn upgrading_the_level_itself_at_127_passes_the_cap() {
    let mut player = player_with_object([0; 8]);
    player.objects[0].attributes = [127, 0, 0, 0];
    assert!(player.can_upgrade(0, 0));
    player.upgrade_object(0, 0);
    assert_eq!(player.objects[0].attributes[0], 129);
    assert!(!player.can_upgrade(0, 0));
}

#[test]
fn well_formed_players() {
    let mut player = player_with_object([0; 8]);
    assert!(player.well_formed());
    player.local.0[3] = -1;
    assert!(!player.well_formed());
    player.local.0[3] = 0;
    player.cards[2].duration = 0;
    assert!(!player.well_formed());
    player.cards[2].duration = 1;
    player.objects[0].modifier_info = 3 << 56;
    assert!(!player.well_formed());
    player.objects[0].modifier_info = (2 << 56) | (8 << 48);
    assert!(!player.well_formed());
    player.objects[0].modifier_info = (2 << 56) | (7 << 48) | 5;
    assert!(player.well_formed());
    player.cost_info = 0;
    assert!(!player.well_formed());
    player.cost_info = 1;
    player.local.0.push(0);
    assert!(!player.well_formed());
}

#[test]
fn pay_cost_fails_on_an_uncovered_cost_that_could_not_double() {
    let mut player = PlayerData::default();
    player.cost_info = 1;
    player.current_cost = u32::MAX;
    player.local.0[7] = u32::MAX as i64 - 1;
    let before = player.clone();
    assert_eq!(player.pay_cost(), Err(ERROR_NOT_ENOUGH_BALANCE));
    assert_eq!(player, before);
}
