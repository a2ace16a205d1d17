use automata::card::Card;
use automata::error::{
    Abort, ERROR_INDEX_OUT_OF_BOUND, ERROR_NOT_ENOUGH_BALANCE, ERROR_NOT_ENOUGH_RESOURCE,
    ERROR_PLAYER_ALREADY_EXIST, ERROR_PLAYER_NOT_EXIST,
};
use automata::state::{
    Bounty, Command, Deposit, InstallCard, InstallObject, RestartObject, Transaction, UpgradeObject,
    Withdraw, World,
};

const ADMIN: [u64; 4] = [11, 22, 33, 44];
const ADMIN_ID: [u64; 2] = [22, 33];
const ALICE: [u64; 4] = [1, 2, 3, 4];
const ALICE_ID: [u64; 2] = [2, 3];
const RAND: [u64; 4] = [0, 0x76543210, 0, 0];

fn head(command: u64, object_index: u64, nonce: u64) -> u64 {
    command | (object_index << 8) | (nonce << 16)
}

fn run(world: &mut World, pkey: &[u64; 4], pid: &[u64; 2], params: [u64; 4]) -> Result<Vec<u64>, Abort> {
    Transaction::decode(&params).process(pkey, pid, &RAND, world)
}

fn alice(world: &mut World, params: [u64; 4]) -> Result<Vec<u64>, Abort> {
    run(world, &ALICE, &ALICE_ID, params)
}

fn admin(world: &mut World, params: [u64; 4]) -> Result<Vec<u64>, Abort> {
    run(world, &ADMIN, &ADMIN_ID, params)
}

fn tick(world: &mut World) -> Result<Vec<u64>, Abort> {
    admin(world, [0, 0, 0, 0])
}

fn world_with_alice() -> World {
    let mut world = World::new(ADMIN);
    assert_eq!(alice(&mut world, [head(1, 0, 0), 0, 0, 0]), Ok(vec![0]));
    world
}

fn program_word(program: [u8; 8]) -> u64 {
    u64::from_le_bytes(program)
}

#[test]
fn decode_reads_command_index_and_nonce() {
    let tx = Transaction::decode(&[head(2, 7, 0x1234), program_word([0, 1, 2, 3, 0, 1, 2, 3]), 5, 6]);
    assert_eq!(tx.nonce, 0x1234);
    assert_eq!(
        tx.command,
        Command::InstallObject(InstallObject { object_index: 7, modifiers: [0, 1, 2, 3, 0, 1, 2, 3] })
    );
}

#[test]
fn decode_each_command() {
    let payload = |command: u64| Transaction::decode(&[head(command, 3, 9), 10, 20, 30, 40]).command;
    assert_eq!(payload(1), Command::InstallPlayer);
    assert_eq!(
        payload(3),
        Command::RestartObject(RestartObject { object_index: 3, modifiers: [10, 0, 0, 0, 0, 0, 0, 0] })
    );
    assert_eq!(payload(4), Command::UpgradeObject(UpgradeObject { object_index: 3, feature_index: 10 }));
    assert_eq!(payload(5), Command::InstallCard(InstallCard {}));
    assert_eq!(payload(6), Command::Withdraw(Withdraw { data: [10, 20, 30] }));
    assert_eq!(payload(7), Command::Deposit(Deposit { data: [10, 20, 30] }));
    assert_eq!(payload(8), Command::Bounty(Bounty { bounty_index: 10 }));
    assert_eq!(payload(0), Command::Tick);
    assert_eq!(payload(9), Command::Tick);
    assert_eq!(payload(255), Command::Tick);
}

#[test]
fn decode_error_names() {
    assert_eq!(Transaction::decode_error(ERROR_PLAYER_NOT_EXIST), "PlayerNotExist");
    assert_eq!(Transaction::decode_error(ERROR_PLAYER_ALREADY_EXIST), "PlayerAlreadyExist");
    assert_eq!(Transaction::decode_error(ERROR_NOT_ENOUGH_BALANCE), "NotEnoughBalance");
    assert_eq!(Transaction::decode_error(ERROR_INDEX_OUT_OF_BOUND), "IndexOutofBound");
    assert_eq!(Transaction::decode_error(ERROR_NOT_ENOUGH_RESOURCE), "NotEnoughResource");
    assert_eq!(Transaction::decode_error(0), "Unknown");
    assert_eq!(Transaction::decode_error(77), "Unknown");
}

#[test]
fn install_player_twice_is_rejected() {
    let mut world = world_with_alice();
    assert_eq!(world.players.players.len(), 1);
    assert_eq!(world.players.players[0].player_id, ALICE_ID);
    let before = world.clone();
    assert_eq!(alice(&mut world, [head(1, 0, 0), 0, 0, 0]), Ok(vec![ERROR_PLAYER_ALREADY_EXIST as u64]));
    assert_eq!(world, before);
    assert_eq!(Transaction::install_player(&[7, 7], &mut world), Ok(()));
    assert_eq!(Transaction::install_player(&[7, 7], &mut world), Err(ERROR_PLAYER_ALREADY_EXIST));
}

#[test]
fn commands_of_unknown_players_are_rejected() {
    let mut world = World::new(ADMIN);
    let before = world.clone();
    for command in [2, 3, 4, 5, 6, 8] {
        assert_eq!(
            alice(&mut world, [head(command, 0, 0), 0, 0, 0]),
            Ok(vec![ERROR_PLAYER_NOT_EXIST as u64])
        );
    }
    assert_eq!(world, before);
}

#[test]
fn install_and_first_tick() {
    let mut world = world_with_alice();
    let program = [0, 1, 2, 3, 0, 1, 2, 3];
    assert_eq!(alice(&mut world, [head(2, 0, 0), program_word(program), 0, 0]), Ok(vec![0]));
    {
        let player = &world.players.players[0];
        assert_eq!(player.nonce, 1);
        assert_eq!(player.data.local.0, vec![30, 30, 0, 0, 2, 0, 0, 0]);
        assert_eq!(player.data.energy, 276);
        assert_eq!(player.data.objects.len(), 1);
        assert_eq!(player.data.objects[0].cards, program);
    }
    assert_eq!(world.state.queue.list.len(), 1);
    assert_eq!(world.state.queue.list[0].delta, 20);
    assert_eq!(world.state.queue.list[0].owner, ALICE_ID);
    for _ in 0..20 {
        assert_eq!(tick(&mut world), Ok(vec![0]));
    }
    assert_eq!(world.state.queue.counter, 20);
    assert_eq!(world.state.queue.list[0].delta, 0);
    assert_eq!(world.players.players[0].data.local.0, vec![30, 30, 0, 0, 2, 0, 0, 0]);
    // The event fires in the tick that starts at counter 20, and its
    // successor, due 40 ticks later, is one tick closer when that tick ends.
    assert_eq!(tick(&mut world), Ok(vec![0]));
    let player = &world.players.players[0];
    assert_eq!(player.data.local.0, vec![20, 20, 20, 0, 2, 0, 0, 0]);
    assert_eq!(player.data.objects[0].get_modifier_index(), 1);
    assert_eq!(player.data.objects[0].modifier_info & 0xffff_ffff_ffff, 20);
    assert_eq!(world.state.queue.list.len(), 1);
    assert_eq!(world.state.queue.list[0].delta, 39);
    assert_eq!(world.state.queue.counter, 21);
}

#[test]
fn halt_on_insufficient_resources() {
    let mut world = world_with_alice();
    assert_eq!(alice(&mut world, [head(2, 0, 0), program_word([3; 8]), 0, 0]), Ok(vec![0]));
    assert_eq!(world.state.queue.list[0].delta, 40);
    for _ in 0..41 {
        assert_eq!(tick(&mut world), Ok(vec![0]));
    }
    let player = &world.players.players[0];
    assert!(player.data.objects[0].is_halted());
    assert_eq!(player.data.objects[0].get_modifier_index(), 0);
    assert_eq!(player.data.local.0, vec![30, 30, 0, 0, 2, 0, 0, 0]);
    assert!(world.state.queue.list.is_empty());
}

#[test]
fn install_card_costs_follow_the_cost_clock() {
    let mut world = world_with_alice();
    world.players.players[0].data.local.0[7] = 100;
    let mut paid = Vec::new();
    for nonce in 0..11 {
        let before = world.players.players[0].data.local.0[7];
        assert_eq!(alice(&mut world, [head(5, 0, nonce), 0, 0, 0]), Ok(vec![0]));
        paid.push(before - world.players.players[0].data.local.0[7]);
        if nonce == 4 {
            assert_eq!(world.players.players[0].data.current_cost, 1);
        }
    }
    assert_eq!(paid, vec![0, 0, 0, 0, 0, 1, 1, 1, 1, 1, 2]);
    assert_eq!(world.players.players[0].data.current_cost, 2);
    assert_eq!(world.players.players[0].data.cards.len(), 15);
    assert_eq!(world.players.players[0].nonce, 11);
}

#[test]
fn install_card_draws_from_the_holdings_after_payment() {
    let mut world = world_with_alice();
    assert_eq!(alice(&mut world, [head(5, 0, 0), 0, 0, 0]), Ok(vec![0]));
    assert_eq!(world.players.players[0].data.cards[4], Card::new(415, [2, 3, 0, 0, 0, 0, 0, 0]));
}

#[test]
fn paid_command_without_treasure_is_rejected() {
    let mut world = world_with_alice();
    world.players.players[0].data.current_cost = 1;
    let before = world.clone();
    for command in [2, 3, 4, 5] {
        assert_eq!(
            alice(&mut world, [head(command, 0, 0), 0, 0, 0]),
            Ok(vec![ERROR_NOT_ENOUGH_BALANCE as u64])
        );
        assert_eq!(world, before);
    }
}

#[test]
fn nonce_mismatch_aborts() {
    let mut world = world_with_alice();
    let before = world.clone();
    for command in [2, 3, 4, 5, 6, 8] {
        assert_eq!(alice(&mut world, [head(command, 0, 1), 0, 0, 0]), Err(Abort::NonceMismatch));
    }
    assert_eq!(world, before);
    assert_eq!(alice(&mut world, [head(5, 0, 0), 0, 0, 0]), Ok(vec![0]));
    assert_eq!(alice(&mut world, [head(5, 0, 0), 0, 0, 0]), Err(Abort::NonceMismatch));
    assert_eq!(alice(&mut world, [head(5, 0, 1), 0, 0, 0]), Ok(vec![0]));
}

#[test]
fn install_object_needs_the_next_index_and_an_owned_card() {
    let mut world = world_with_alice();
    let before = world.clone();
    assert_eq!(alice(&mut world, [head(2, 1, 0), 0, 0, 0]), Err(Abort::Fault));
    assert_eq!(alice(&mut world, [head(2, 0, 0), program_word([4; 8]), 0, 0]), Err(Abort::Fault));
    assert_eq!(world, before);
    assert_eq!(alice(&mut world, [head(2, 0, 0), program_word([1; 8]), 0, 0]), Ok(vec![0]));
    assert_eq!(alice(&mut world, [head(2, 1, 1), program_word([2; 8]), 0, 0]), Ok(vec![0]));
    let deltas: Vec<u64> = world.state.queue.list.iter().map(|e| e.delta).collect();
    assert_eq!(deltas, vec![40, 0]);
    let indices: Vec<usize> = world.state.queue.list.iter().map(|e| e.object_index).collect();
    assert_eq!(indices, vec![0, 1]);
}

#[test]
fn upgrade_object_command() {
    let mut world = world_with_alice();
    assert_eq!(alice(&mut world, [head(2, 0, 0), 0, 0, 0]), Ok(vec![0]));
    assert_eq!(alice(&mut world, [head(4, 0, 1), 2, 0, 0]), Ok(vec![0]));
    assert_eq!(world.players.players[0].data.objects[0].attributes, [1, 0, 1, 0]);
    let before = world.clone();
    assert_eq!(alice(&mut world, [head(4, 1, 2), 2, 0, 0]), Err(Abort::Fault));
    assert_eq!(alice(&mut world, [head(4, 0, 2), 4, 0, 0]), Err(Abort::Fault));
    assert_eq!(world, before);
    world.players.players[0].data.objects[0].attributes[0] = 128;
    let before = world.clone();
    assert_eq!(alice(&mut world, [head(4, 0, 2), 1, 0, 0]), Err(Abort::Fault));
    assert_eq!(world, before);
}

#[test]
fn restart_of_a_running_object_waits_for_its_event() {
    let mut world = world_with_alice();
    assert_eq!(alice(&mut world, [head(2, 0, 0), program_word([0; 8]), 0, 0]), Ok(vec![0]));
    assert_eq!(alice(&mut world, [head(3, 0, 1), program_word([1; 8]), 0, 0]), Ok(vec![0]));
    assert!(world.players.players[0].data.objects[0].is_restarting());
    assert_eq!(world.players.players[0].data.objects[0].cards, [1; 8]);
    assert_eq!(world.state.queue.list.len(), 1);
    for _ in 0..21 {
        assert_eq!(tick(&mut world), Ok(vec![0]));
    }
    let player = &world.players.players[0];
    assert!(!player.data.objects[0].is_restarting());
    assert_eq!(player.data.objects[0].modifier_info, 20);
    assert_eq!(player.data.local.0, vec![30, 30, 0, 0, 2, 0, 0, 0]);
    assert_eq!(player.data.energy, 256 + 40 - 1);
    assert_eq!(world.state.queue.list[0].delta, 39);
}

#[test]
fn restart_of_a_halted_object_schedules_it_again() {
    let mut world = world_with_alice();
    assert_eq!(alice(&mut world, [head(2, 0, 0), program_word([3; 8]), 0, 0]), Ok(vec![0]));
    for _ in 0..41 {
        assert_eq!(tick(&mut world), Ok(vec![0]));
    }
    assert!(world.state.queue.list.is_empty());
    assert_eq!(alice(&mut world, [head(3, 0, 1), program_word([0; 8]), 0, 0]), Ok(vec![0]));
    assert_eq!(world.players.players[0].data.objects[0].modifier_info, 41);
    assert_eq!(world.state.queue.list.len(), 1);
    assert_eq!(world.state.queue.list[0].delta, 20);
    let before = world.clone();
    assert_eq!(alice(&mut world, [head(3, 5, 2), 0, 0, 0]), Err(Abort::Fault));
    assert_eq!(world, before);
}

#[test]
fn deposit_is_the_administrators() {
    let mut world = world_with_alice();
    assert_eq!(admin(&mut world, [head(1, 0, 0), 0, 0, 0]), Ok(vec![0]));
    let before = world.clone();
    let deposit = [head(7, 0, 0), ALICE_ID[0], ALICE_ID[1], 500];
    assert_eq!(run(&mut world, &ALICE, &ALICE_ID, deposit), Err(Abort::NotAdmin));
    assert_eq!(run(&mut world, &[11, 22, 33, 45], &ADMIN_ID, deposit), Err(Abort::NotAdmin));
    assert_eq!(world, before);
    assert_eq!(admin(&mut world, deposit), Ok(vec![0]));
    assert_eq!(world.players.players[0].data.local.0[7], 500);
    assert_eq!(world.players.players[0].nonce, 0);
    assert_eq!(world.players.players[1].nonce, 1);
    assert_eq!(world.players.players[1].data.local.0[7], 0);
}

#[test]
fn deposit_creates_the_target() {
    let mut world = World::new(ADMIN);
    assert_eq!(admin(&mut world, [head(7, 0, 0), 5, 6, 70]), Err(Abort::Fault));
    assert_eq!(admin(&mut world, [head(1, 0, 0), 0, 0, 0]), Ok(vec![0]));
    assert_eq!(admin(&mut world, [head(7, 0, 1), 5, 6, 70]), Err(Abort::NonceMismatch));
    assert_eq!(admin(&mut world, [head(7, 0, 0), 5, 6, 70]), Ok(vec![0]));
    assert_eq!(world.players.players.len(), 2);
    assert_eq!(world.players.players[1].player_id, [5, 6]);
    assert_eq!(world.players.players[1].data.local.0, vec![30, 30, 0, 0, 2, 0, 0, 70]);
    assert_eq!(admin(&mut world, [head(7, 0, 1), 5, 6, 30]), Ok(vec![0]));
    assert_eq!(world.players.players[1].data.local.0[7], 100);
    let before = world.clone();
    assert_eq!(admin(&mut world, [head(7, 0, 2), 5, 6, u64::MAX]), Err(Abort::Fault));
    assert_eq!(admin(&mut world, [head(7, 0, 2), 5, 6, i64::MAX as u64 - 99]), Err(Abort::Fault));
    assert_eq!(world, before);
    assert_eq!(admin(&mut world, [head(7, 0, 2), 5, 6, i64::MAX as u64 - 100]), Ok(vec![0]));
    assert_eq!(world.players.players[1].data.local.0[7], i64::MAX);
}

#[test]
fn deposit_to_the_administrator() {
    let mut world = World::new(ADMIN);
    assert_eq!(admin(&mut world, [head(1, 0, 0), 0, 0, 0]), Ok(vec![0]));
    assert_eq!(admin(&mut world, [head(7, 0, 0), ADMIN_ID[0], ADMIN_ID[1], 9]), Ok(vec![0]));
    assert_eq!(world.players.players.len(), 1);
    assert_eq!(world.players.players[0].nonce, 1);
    assert_eq!(world.players.players[0].data.local.0[7], 9);
}

#[test]
fn withdraw_takes_the_low_word_and_waits_for_settlement() {
    let mut world = world_with_alice();
    world.players.players[0].data.local.0[7] = 50;
    let before = world.clone();
    assert_eq!(
        alice(&mut world, [head(6, 0, 0), 51, 8, 9]),
        Ok(vec![ERROR_NOT_ENOUGH_BALANCE as u64])
    );
    assert_eq!(world, before);
    assert_eq!(alice(&mut world, [head(6, 0, 0), (7 << 32) | 20, 8, 9]), Ok(vec![0]));
    assert_eq!(world.players.players[0].data.local.0[7], 30);
    assert_eq!(world.players.players[0].nonce, 1);
    assert_eq!(world.settlement.0, vec![[(7 << 32) | 20, 8, 9]]);
    let pending = world.state.flush_settlement(&mut world.settlement, &mut world.storage);
    assert_eq!(pending, vec![[(7 << 32) | 20, 8, 9]]);
    assert!(world.settlement.0.is_empty());
    assert_eq!(world.storage.get(&[0, 0, 0, 0]), vec![1000, 0]);
}

#[test]
fn bounty_trades_a_resource_for_treasure() {
    let mut world = world_with_alice();
    assert_eq!(alice(&mut world, [head(8, 0, 0), 0, 0, 0]), Ok(vec![0]));
    {
        let player = &world.players.players[0];
        assert_eq!(player.data.local.0, vec![10, 30, 0, 0, 2, 0, 0, 4]);
        assert_eq!(player.data.redeem_info, [1, 0, 0, 0, 0, 0, 0, 0]);
        assert_eq!(player.nonce, 1);
    }
    let before = world.clone();
    assert_eq!(alice(&mut world, [head(8, 0, 1), 0, 0, 0]), Ok(vec![ERROR_NOT_ENOUGH_RESOURCE as u64]));
    assert_eq!(alice(&mut world, [head(8, 0, 1), 8, 0, 0]), Ok(vec![ERROR_INDEX_OUT_OF_BOUND as u64]));
    assert_eq!(alice(&mut world, [head(8, 0, 1), u64::MAX, 0, 0]), Ok(vec![ERROR_INDEX_OUT_OF_BOUND as u64]));
    assert_eq!(world, before);
    world.players.players[0].data.local.0[0] = 41;
    assert_eq!(alice(&mut world, [head(8, 0, 1), 0, 0, 0]), Ok(vec![0]));
    let player = &world.players.players[0];
    assert_eq!(player.data.local.0, vec![1, 30, 0, 0, 2, 0, 0, 12]);
    assert_eq!(player.data.redeem_info[0], 2);
}

#[test]
fn bounty_needs_more_than_the_cost() {
    let mut world = world_with_alice();
    world.players.players[0].data.local.0[1] = 20;
    assert_eq!(alice(&mut world, [head(8, 0, 0), 1, 0, 0]), Ok(vec![ERROR_NOT_ENOUGH_RESOURCE as u64]));
    world.players.players[0].data.local.0[1] = 21;
    assert_eq!(alice(&mut world, [head(8, 0, 0), 1, 0, 0]), Ok(vec![0]));
    assert_eq!(world.players.players[0].data.local.0[1], 1);
}

#[test]
fn bounty_on_the_treasure_itself() {
    let mut world = world_with_alice();
    world.players.players[0].data.local.0[7] = 25;
    assert_eq!(alice(&mut world, [head(8, 0, 0), 7, 0, 0]), Ok(vec![0]));
    assert_eq!(world.players.players[0].data.local.0[7], 9);
}

#[test]
fn bounty_beyond_every_holding_is_rejected() {
    let mut world = world_with_alice();
    world.players.players[0].data.local.0[2] = i64::MAX;
    world.players.players[0].data.redeem_info[2] = 59;
    assert_eq!(alice(&mut world, [head(8, 0, 0), 2, 0, 0]), Ok(vec![ERROR_NOT_ENOUGH_RESOURCE as u64]));
    world.players.players[0].data.redeem_info[2] = 255;
    assert_eq!(alice(&mut world, [head(8, 0, 0), 2, 0, 0]), Ok(vec![ERROR_NOT_ENOUGH_RESOURCE as u64]));
    world.players.players[0].data.redeem_info[2] = 58;
    assert_eq!(alice(&mut world, [head(8, 0, 0), 2, 0, 0]), Ok(vec![0]));
    assert_eq!(world.players.players[0].data.local.0[2], i64::MAX - (20 << 58));
    assert_eq!(world.players.players[0].data.local.0[7], 4 * 59);
}

#[test]
fn tick_is_the_administrators() {
    let mut world = world_with_alice();
    let before = world.clone();
    assert_eq!(alice(&mut world, [0, 0, 0, 0]), Err(Abort::NotAdmin));
    assert_eq!(alice(&mut world, [head(9, 0, 0), 0, 0, 0]), Err(Abort::NotAdmin));
    assert_eq!(world, before);
    assert_eq!(tick(&mut world), Ok(vec![0]));
    assert_eq!(world.state.queue.counter, 1);
    assert_eq!(Transaction::tick(&mut world), Ok(()));
    assert_eq!(world.state.queue.counter, 2);
}

#[test]
fn tick_stops_at_the_end_of_the_clock() {
    let mut world = World::new(ADMIN);
    world.state.queue.counter = (1 << 48) - 2;
    assert_eq!(tick(&mut world), Ok(vec![0]));
    assert_eq!(world.state.queue.counter, (1 << 48) - 1);
    assert_eq!(tick(&mut world), Err(Abort::Fault));
    assert_eq!(world.state.queue.counter, (1 << 48) - 1);
}

#[test]
fn energy_never_grows_within_a_tick() {
    let mut world = world_with_alice();
    world.players.players[0].data.cards.push(Card::new(1, [0; 8]));
    assert_eq!(alice(&mut world, [head(2, 0, 0), program_word([4; 8]), 0, 0]), Ok(vec![0]));
    let mut energy = world.players.players[0].data.energy;
    assert_eq!(energy, 276);
    for _ in 0..40 {
        assert_eq!(tick(&mut world), Ok(vec![0]));
        let now = world.players.players[0].data.energy;
        assert!(now <= energy);
        energy = now;
    }
    assert_eq!(energy, 276 - 4);
}

#[test]
fn world_without_energy_halts_at_the_next_event() {
    let mut world = world_with_alice();
    assert_eq!(alice(&mut world, [head(2, 0, 0), program_word([0; 8]), 0, 0]), Ok(vec![0]));
    world.players.players[0].data.energy = 0;
    for _ in 0..21 {
        assert_eq!(tick(&mut world), Ok(vec![0]));
    }
    let player = &world.players.players[0];
    assert!(player.data.objects[0].is_halted());
    assert_eq!(player.data.local.0, vec![30, 30, 0, 0, 2, 0, 0, 0]);
    assert_eq!(player.data.objects[0].get_modifier_index(), 0);
    assert!(world.state.queue.list.is_empty());
}

#[test]
fn stored_events_fire_when_their_bucket_is_due() {
    let mut world = world_with_alice();
    assert_eq!(alice(&mut world, [head(2, 0, 0), program_word([0, 1, 2, 3, 0, 1, 2, 3]), 0, 0]), Ok(vec![0]));
    let mut twin = world.clone();
    world.state.store(&mut world.storage);
    assert!(world.state.queue.list.is_empty());
    assert_eq!(world.storage.get(&[0xfffffffe, 20, 0, 0xfffffffe]), vec![2, 3, 20]);
    assert_eq!(world.state.initialize(&world.storage), Ok(()));
    for _ in 0..21 {
        assert_eq!(tick(&mut world), Ok(vec![0]));
        assert_eq!(tick(&mut twin), Ok(vec![0]));
        assert_eq!(world.players, twin.players);
        assert_eq!(world.state.queue.counter, twin.state.queue.counter);
    }
    assert_eq!(world.players.players[0].data.local.0, vec![20, 20, 20, 0, 2, 0, 0, 0]);
    assert_eq!(world.state.queue.list, twin.state.queue.list);
}

#[test]
fn well_formed_world() {
    let mut world = world_with_alice();
    assert!(world.well_formed());
    assert!(world.is_admin(&ADMIN));
    assert!(!world.is_admin(&ALICE));
    world.state.queue.counter = 1 << 48;
    assert!(!world.well_formed());
    world.state.queue.counter = (1 << 48) - 1;
    assert!(world.well_formed());
    world.players.players[0].data.local.0[0] = -5;
    assert!(!world.well_formed());
}

#[test]
fn levels_stay_capped_through_transactions() {
    let mut world = world_with_alice();
    world.players.players[0].data.local.0[7] = 1 << 40;
    assert_eq!(alice(&mut world, [head(2, 0, 0), 0, 0, 0]), Ok(vec![0]));
    let mut nonce = 1;
    loop {
        let feature = 1 + nonce % 3;
        match alice(&mut world, [head(4, 0, nonce), feature, 0, 0]) {
            Ok(status) => assert_eq!(status, vec![0]),
            Err(abort) => {
                assert_eq!(abort, Abort::Fault);
                break;
            }
        }
        assert!(world.players.players[0].data.objects[0].attributes[0] < 129);
        nonce += 1;
    }
    assert_eq!(world.players.players[0].data.objects[0].attributes[0], 128);
    assert_eq!(nonce, 129);
}

#[test]
fn install_card_aborts_where_the_draw_leaves_64_bits() {
    let mut world = world_with_alice();
    world.players.players[0].data.local.0[0] = 1 << 60;
    let before = world.clone();
    let draw = [0, 0x0307, 0, 0];
    let install = Transaction::decode(&[head(5, 0, 0), 0, 0, 0]);
    assert_eq!(install.process(&ALICE, &ALICE_ID, &draw, &mut world), Err(Abort::Fault));
    assert_eq!(world, before);
    assert!(!world.players.players[0].data.can_generate(&draw));
    world.players.players[0].data.local.0[0] = 1 << 50;
    assert!(world.players.players[0].data.can_generate(&draw));
    assert_eq!(install.process(&ALICE, &ALICE_ID, &draw, &mut world), Ok(vec![0]));
    assert_eq!(world.players.players[0].data.cards[4].attributes, [-64, 0, 0, 0, 0, 0, 0, 3]);
}

#[test]
fn install_card_judges_the_draw_after_payment() {
    let mut world = world_with_alice();
    let largest = (u64::MAX / 2688) as i64;
    // Input and output are both the treasure, which the payment brings to
    // the largest amount that the draw takes.
    let draw = [0, 0x7777_0307, 0, 0];
    world.players.players[0].data.current_cost = 1;
    world.players.players[0].data.local.0 = vec![0, 0, 0, 0, 0, 0, 0, largest + 1];
    assert!(!world.players.players[0].data.can_generate(&draw));
    let install = Transaction::decode(&[head(5, 0, 0), 0, 0, 0]);
    assert_eq!(install.process(&ALICE, &ALICE_ID, &draw, &mut world), Ok(vec![0]));
    assert_eq!(world.players.players[0].data.local.0[7], largest);
    assert_eq!(world.players.players[0].data.cards.len(), 5);
    assert_eq!(world.players.players[0].data.cards[4].attributes, [0, 0, 0, 0, 0, 0, 0, -17]);
    assert_eq!(world.players.players[0].data.cards[4].duration, 15);
}
