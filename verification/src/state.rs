//! The world and its transactions: eight commands of players and the
//! administrator's tick.

use crate::config::{bounty_cost, bounty_reward, can_draw, drawable, generated_card, Config};
use crate::convention::{
    filed, scheduled, ticked, with_event, EventQueue, QueueModel, Scheduled,
};
use crate::error::{
    Abort, ERROR_INDEX_OUT_OF_BOUND, ERROR_NOT_ENOUGH_BALANCE, ERROR_NOT_ENOUGH_RESOURCE,
    ERROR_PLAYER_ALREADY_EXIST, ERROR_PLAYER_NOT_EXIST,
};
use crate::events::{can_fire_on, energy_kept, players_after, Event};
use crate::persistence::{due_now, lemma_ticked_players, players_through};
use crate::object::{running_at, Object, TICK_LIMIT};
use crate::player::{PlayerModel, TREASURE};
use crate::registry::{
    id_of, lemma_position_found, lemma_position_update, position_of, records_wf, AutomataPlayer,
    PlayerRecord, Registry,
};
use crate::settlement::SettlementInfo;
use crate::storage::{key_of, read, Key, Storage};
use crate::word::word_to_bytes;
use vstd::arithmetic::power::lemma_pow_increases;
use vstd::arithmetic::power2::{lemma2_to64, lemma2_to64_rest, lemma_pow2};
use vstd::prelude::*;

verus! {

/// Supply of a new world.
pub const INITIAL_SUPPLY: u64 = 1000;

/// The host may end a batch of transactions at every tick that this divides.
pub const PREEMPT_ROUND: u64 = 30;

/// The key under which supply and clock are stored.
pub const STATE_KEY: [u64; 4] = [0, 0, 0, 0];

/// The world's own numbers: supply and clock with the pending events.
#[derive(Clone, Debug, PartialEq, Eq)]
pub struct State {
    pub supplier: u64,
    pub queue: EventQueue,
}

/// The digit `d` as a character.
pub open spec fn digit(d: nat) -> char {
    ((48 + d) as u8) as char
}

/// `n` in decimal, without leading zeros.
pub open spec fn decimal(n: nat) -> Seq<char>
    decreases n,
{
    if n < 10 {
        seq![digit(n)]
    } else {
        decimal(n / 10).push(digit(n % 10))
    }
}

/// `serde_json::to_string` on an unsigned 64-bit number: its JSON text, which
/// is the number in decimal without leading zeros. Serialising a number to a
/// string does not fail.
#[verifier::external_body]
fn number_to_json(n: u64) -> (text: String)
    ensures
        text@ == decimal(n as nat),
{
    serde_json::to_string(&n).unwrap()
}

/// The storage after supply and clock were written and the first `n`
/// pending events were filed.
pub open spec fn state_stored(
    storage: Map<Key, Seq<u64>>,
    supplier: u64,
    counter: u64,
    list: Seq<Event>,
) -> Map<Key, Seq<u64>> {
    filed(
        storage.insert(key_of(STATE_KEY), seq![supplier, counter]),
        counter,
        list,
        list.len() as int,
    )
}

impl State {
    /// A world at tick zero with the initial supply and no pending event.
    pub fn new() -> (state: Self)
        ensures
            state.supplier == INITIAL_SUPPLY,
            state.queue@.counter == 0,
            state.queue@.schedule == Seq::<Scheduled>::empty(),
    {
        State { supplier: INITIAL_SUPPLY, queue: EventQueue::new() }
    }

    /// The current tick as JSON text.
    pub fn snapshot(&self) -> (text: String)
        ensures
            text@ == decimal(self.queue.counter as nat),
    {
        number_to_json(self.queue.counter)
    }

    /// Whether the host may end its batch of transactions here: at every
    /// thirtieth tick.
    pub fn preempt(&self) -> (yes: bool)
        ensures
            yes == (self.queue.counter % PREEMPT_ROUND == 0),
    {
        self.queue.counter % PREEMPT_ROUND == 0
    }

    /// Seed that the host starts its random numbers from.
    pub fn rand_seed() -> (seed: u64)
        ensures
            seed == 0,
    {
        0
    }

    /// Writes supply and clock under the state key, then moves every
    /// pending event into the bucket of its tick.
    pub fn store(&mut self, storage: &mut Storage)
        ensures
            final(storage)@ == state_stored(
                old(storage)@,
                old(self).supplier,
                old(self).queue.counter,
                old(self).queue.list@,
            ),
            final(self).supplier == old(self).supplier,
            final(self).queue@.counter == old(self).queue@.counter,
            final(self).queue@.schedule == Seq::<Scheduled>::empty(),
    {
        let mut v: Vec<u64> = Vec::new();
        v.push(self.supplier);
        self.queue.to_data(&mut v);
        assert(v@ =~= seq![self.supplier, self.queue.counter]);
        storage.set(&STATE_KEY, v);
        self.queue.store(storage);
    }

    /// Reads supply and clock from under the state key.
    ///
    /// Where nothing is stored there, nothing changes. Where both words are
    /// there, they replace supply and clock, and no event is pending. Aborts
    /// where only one word is stored.
    pub fn initialize(&mut self, storage: &Storage) -> (r: Result<(), Abort>)
        ensures
            r is Ok <==> read(storage@, key_of(STATE_KEY)).len() != 1,
            read(storage@, key_of(STATE_KEY)).len() < 2 ==> *final(self) == *old(self),
            read(storage@, key_of(STATE_KEY)).len() >= 2 ==> {
                &&& final(self).supplier == read(storage@, key_of(STATE_KEY))[0]
                &&& final(self).queue@.counter == read(storage@, key_of(STATE_KEY))[1]
                &&& final(self).queue@.schedule == Seq::<Scheduled>::empty()
            },
            r matches Err(abort) ==> abort == Abort::Fault,
    {
        let data = storage.get(&STATE_KEY);
        if data.len() == 0 {
            return Ok(());
        }
        match EventQueue::from_data(&data, 1) {
            None => Err(Abort::Fault),
            Some((queue, _)) => {
                self.supplier = data[0];
                self.queue = queue;
                Ok(())
            },
        }
    }

    /// Hands out the withdrawals that wait for settlement, and stores the state.
    pub fn flush_settlement(
        &mut self,
        settlement: &mut SettlementInfo,
        storage: &mut Storage,
    ) -> (pending: Vec<[u64; 3]>)
        ensures
            pending@ == old(settlement)@,
            final(settlement)@ == Seq::<[u64; 3]>::empty(),
            final(storage)@ == state_stored(
                old(storage)@,
                old(self).supplier,
                old(self).queue.counter,
                old(self).queue.list@,
            ),
            final(self).supplier == old(self).supplier,
            final(self).queue@.counter == old(self).queue@.counter,
            final(self).queue@.schedule == Seq::<Scheduled>::empty(),
    {
        let pending = settlement.flush_settlement();
        self.store(storage);
        pending
    }
}

/// Everything that transactions read and change: the administrator's key,
/// the state, the players, the key-value storage and the withdrawals that
/// wait for settlement.
#[derive(Clone, Debug, PartialEq, Eq)]
pub struct World {
    pub admin: [u64; 4],
    pub state: State,
    pub players: Registry,
    pub storage: Storage,
    pub settlement: SettlementInfo,
}

/// A world as plain values.
#[verifier::ext_equal]
pub struct WorldModel {
    pub admin: Key,
    pub supplier: u64,
    pub queue: QueueModel,
    pub players: Seq<PlayerRecord>,
    pub storage: Map<Key, Seq<u64>>,
    pub settlement: Seq<[u64; 3]>,
}

impl View for World {
    type V = WorldModel;

    open spec fn view(&self) -> WorldModel {
        WorldModel {
            admin: key_of(self.admin),
            supplier: self.state.supplier,
            queue: self.state.queue@,
            players: self.players@,
            storage: self.storage@,
            settlement: self.settlement@,
        }
    }
}

/// What a transaction does to a world.
pub enum Step {
    /// The transaction succeeds with status zero and leaves this world.
    Applied(WorldModel),
    /// The transaction fails with this status and changes nothing.
    Rejected(u32),
    /// The transaction is aborted.
    Aborted(Abort),
}

impl WorldModel {
    /// Every player is well-formed and the clock fits its 48 bits.
    pub open spec fn wf(self) -> bool {
        &&& records_wf(self.players)
        &&& self.queue.counter < TICK_LIMIT
    }

    /// The world with player `i` replaced.
    pub open spec fn with_player(self, i: int, record: PlayerRecord) -> WorldModel {
        WorldModel { players: self.players.update(i, record), ..self }
    }

    /// The world with one more pending event, if `next` is one.
    pub open spec fn scheduling(self, next: Option<Event>) -> WorldModel {
        match next {
            Some(event) => WorldModel {
                queue: QueueModel {
                    schedule: with_event(self.queue.schedule, scheduled(event)),
                    ..self.queue
                },
                ..self
            },
            None => self,
        }
    }
}

/// A player's transaction carries the number that the player expects.
pub open spec fn nonce_matches(record: PlayerRecord, nonce: u64) -> bool {
    record.nonce == nonce && nonce < u64::MAX
}

/// What the charge for an action does to a player: the player after it, a
/// status where the treasure does not cover the cost, or an abort where the
/// number of the transaction is not the expected one or the cost cannot rise.
pub open spec fn toll(record: PlayerRecord, nonce: u64) -> Result<
    Result<PlayerRecord, u32>,
    Abort,
> {
    if !nonce_matches(record, nonce) {
        Err(Abort::NonceMismatch)
    } else if record.data.treasure() < record.data.current_cost {
        Ok(Err(ERROR_NOT_ENOUGH_BALANCE))
    } else if record.data.next_cost() > u32::MAX {
        Err(Abort::Fault)
    } else {
        Ok(Ok(record.stepped().with_data(record.data.paid())))
    }
}

/// The step that a player's paid action makes: the player must exist and
/// pay the toll; `then` says what follows for the player at its position.
pub open spec fn paid_step(
    w: WorldModel,
    pid: [u64; 2],
    nonce: u64,
    then: spec_fn(int, PlayerRecord) -> Step,
) -> Step {
    match position_of(w.players, id_of(pid)) {
        None => Step::Rejected(ERROR_PLAYER_NOT_EXIST),
        Some(i) => match toll(w.players[i], nonce) {
            Err(abort) => Step::Aborted(abort),
            Ok(Err(status)) => Step::Rejected(status),
            Ok(Ok(paid)) => then(i, paid),
        },
    }
}

/// The result of a command agrees with the step that it is to make.
pub open spec fn agrees(
    step: Step,
    before: WorldModel,
    after: WorldModel,
    r: Result<Result<(), u32>, Abort>,
) -> bool {
    match step {
        Step::Applied(w) => r == Ok::<Result<(), u32>, Abort>(Ok(())) && after == w,
        Step::Rejected(status) => r == Ok::<Result<(), u32>, Abort>(Err(status)) && after
            == before,
        Step::Aborted(abort) => r == Err::<Result<(), u32>, Abort>(abort) && after == before,
    }
}

impl AutomataPlayer {
    /// Says what the charge for an action would do, and changes nothing.
    pub fn toll(&self, nonce: u64) -> (r: Result<Result<(), u32>, Abort>)
        requires
            self@.data.wf(),
        ensures
            match toll(self@, nonce) {
                Err(abort) => r == Err::<Result<(), u32>, Abort>(abort),
                Ok(Err(status)) => r == Ok::<Result<(), u32>, Abort>(Err(status)),
                Ok(Ok(_)) => r == Ok::<Result<(), u32>, Abort>(Ok(())),
            },
    {
        if !(self.nonce == nonce && nonce < u64::MAX) {
            Err(Abort::NonceMismatch)
        } else if self.data.local.0[TREASURE] < self.data.current_cost as i64 {
            Ok(Err(ERROR_NOT_ENOUGH_BALANCE))
        } else if self.data.cost_info == 1 && self.data.current_cost > u32::MAX / 2 {
            Err(Abort::Fault)
        } else {
            Ok(Ok(()))
        }
    }

    /// Charges the player for an action and counts the transaction.
    pub fn pay(&mut self, nonce: u64)
        requires
            old(self)@.data.wf(),
            toll(old(self)@, nonce) is Ok,
            toll(old(self)@, nonce)->Ok_0 is Ok,
        ensures
            Ok::<Result<PlayerRecord, u32>, Abort>(Ok(final(self)@)) == toll(old(self)@, nonce),
            final(self)@.data.wf(),
    {
        self.check_and_inc_nonce(nonce);
        let _ = self.data.pay_cost();
        assert(self@ =~= old(self)@.stepped().with_data(old(self)@.data.paid()));
    }
}

/// Creates the player `pid`.
pub open spec fn install_player_step(w: WorldModel, pid: [u64; 2]) -> Step {
    match position_of(w.players, id_of(pid)) {
        Some(_) => Step::Rejected(ERROR_PLAYER_ALREADY_EXIST),
        None => Step::Applied(
            WorldModel { players: w.players.push(PlayerRecord::fresh(id_of(pid))), ..w },
        ),
    }
}

/// Makes the player `pid` pay for one more card, drawn by `rand[1]` from what
/// the player holds after paying. Aborts where the draw would leave 64 bits.
pub open spec fn install_card_step(
    w: WorldModel,
    pid: [u64; 2],
    nonce: u64,
    rand: [u64; 4],
) -> Step {
    paid_step(
        w,
        pid,
        nonce,
        |i: int, paid: PlayerRecord|
            if !drawable(paid.data.local, rand[1]) {
                Step::Aborted(Abort::Fault)
            } else {
                Step::Applied(
                    w.with_player(
                        i,
                        paid.with_data(
                            paid.data.with_card(generated_card(paid.data.local, rand[1])),
                        ),
                    ),
                )
            },
    )
}

/// Makes the player `pid` pay for an upgrade of an automaton.
pub open spec fn upgrade_object_step(
    w: WorldModel,
    pid: [u64; 2],
    nonce: u64,
    cmd: UpgradeObject,
) -> Step {
    paid_step(
        w,
        pid,
        nonce,
        |i: int, paid: PlayerRecord|
            if !paid.data.can_upgrade(cmd.object_index as int, cmd.feature_index as int) {
                Step::Aborted(Abort::Fault)
            } else {
                Step::Applied(
                    w.with_player(
                        i,
                        paid.with_data(
                            paid.data.upgraded(cmd.object_index as int, cmd.feature_index as int),
                        ),
                    ),
                )
            },
    )
}

/// A new automaton with the program `modifiers`, scheduled at tick `counter`.
pub open spec fn new_object(modifiers: [u8; 8], counter: u64) -> Object {
    Object { modifier_info: running_at(0, counter), cards: modifiers, attributes: [0, 0, 0, 0] }
}

/// Makes the player `pid` pay for a new automaton, which must be the next
/// one of the player, and schedules its first event after the duration of
/// the first card of its program.
pub open spec fn install_object_step(
    w: WorldModel,
    pid: [u64; 2],
    nonce: u64,
    cmd: InstallObject,
) -> Step {
    match position_of(w.players, id_of(pid)) {
        None => Step::Rejected(ERROR_PLAYER_NOT_EXIST),
        Some(i) => if !nonce_matches(w.players[i], nonce) {
            Step::Aborted(Abort::NonceMismatch)
        } else if w.players[i].data.objects.len() != cmd.object_index {
            Step::Aborted(Abort::Fault)
        } else {
            match toll(w.players[i], nonce) {
                Err(abort) => Step::Aborted(abort),
                Ok(Err(status)) => Step::Rejected(status),
                Ok(Ok(paid)) => if cmd.modifiers[0] as int >= paid.data.cards.len() {
                    Step::Aborted(Abort::Fault)
                } else {
                    Step::Applied(
                        w.with_player(
                            i,
                            paid.with_data(
                                PlayerModel {
                                    objects: paid.data.objects.push(
                                        new_object(cmd.modifiers, w.queue.counter),
                                    ),
                                    ..paid.data
                                },
                            ),
                        ).scheduling(
                            Some(
                                Event {
                                    owner: pid,
                                    object_index: cmd.object_index,
                                    delta: paid.data.cards[cmd.modifiers[0] as int].duration,
                                },
                            ),
                        ),
                    )
                },
            }
        },
    }
}

/// Makes the player `pid` pay for a new program of an automaton, and
/// schedules the automaton's next event where it was halted.
pub open spec fn restart_object_step(
    w: WorldModel,
    pid: [u64; 2],
    nonce: u64,
    cmd: RestartObject,
) -> Step {
    paid_step(
        w,
        pid,
        nonce,
        |i: int, paid: PlayerRecord|
            if !paid.data.can_restart(cmd.object_index as int, cmd.modifiers) {
                Step::Aborted(Abort::Fault)
            } else {
                Step::Applied(
                    w.with_player(
                        i,
                        paid.with_data(
                            paid.data.restarted(
                                cmd.object_index as int,
                                cmd.modifiers,
                                w.queue.counter,
                            ),
                        ),
                    ).scheduling(
                        (Event { owner: pid, object_index: cmd.object_index, delta: 0 }).successor(
                            paid.data.restart_delay(cmd.object_index as int, cmd.modifiers),
                        ),
                    ),
                )
            },
    )
}

/// Raises the level of an automaton and one of its four features.
#[derive(Clone, Copy, Debug, PartialEq, Eq)]
pub struct UpgradeObject {
    pub object_index: usize,
    pub feature_index: u64,
}

/// Adds an automaton with the given program; it must be the player's next one.
#[derive(Clone, Copy, Debug, PartialEq, Eq)]
pub struct InstallObject {
    pub object_index: usize,
    pub modifiers: [u8; 8],
}

/// Gives an automaton a new program.
#[derive(Clone, Copy, Debug, PartialEq, Eq)]
pub struct RestartObject {
    pub object_index: usize,
    pub modifiers: [u8; 8],
}

/// Draws one more card for the player.
#[derive(Clone, Copy, Debug, PartialEq, Eq)]
pub struct InstallCard {}

impl UpgradeObject {
    /// Applies the command to `world` for the player `pid`: returns its status,
    /// or aborts. Unless it succeeds, nothing changes.
    pub fn handle(
        &self,
        pid: &[u64; 2],
        nonce: u64,
        _rand: &[u64; 4],
        world: &mut World,
    ) -> (r: Result<Result<(), u32>, Abort>)
        requires
            old(world)@.wf(),
        ensures
            agrees(
                upgrade_object_step(old(world)@, *pid, nonce, *self),
                old(world)@,
                final(world)@,
                r,
            ),
            final(world)@.wf(),
    {
        let found = world.players.position(pid);
        match found {
            None => Ok(Err(ERROR_PLAYER_NOT_EXIST)),
            Some(i) => {
                assert(world.players@[i as int].data.wf());
                match world.players.players[i].toll(nonce) {
                    Err(abort) => Err(abort),
                    Ok(Err(status)) => Ok(Err(status)),
                    Ok(Ok(())) => {
                        let ghost paid = toll(world.players@[i as int], nonce)->Ok_0->Ok_0;
                        assert(paid.data == world.players@[i as int].data.paid());
                        // Paying changes no automaton, so the upgrade can be judged before.
                        if !world.players.players[i].data.can_upgrade(
                            self.object_index,
                            self.feature_index,
                        ) {
                            return Err(Abort::Fault);
                        }
                        world.players.players[i].pay(nonce);
                        world.players.players[i].data.upgrade_object(
                            self.object_index,
                            self.feature_index,
                        );
                        proof {
                            lemma_wf_update(old(world)@.players, i as int, world.players@[i as int]);
                            assert(world@ =~= upgrade_object_step(
                                old(world)@,
                                *pid,
                                nonce,
                                *self,
                            )->Applied_0);
                        }
                        Ok(Ok(()))
                    },
                }
            },
        }
    }
}

/// Replacing a player by a well-formed one keeps the players well-formed.
pub proof fn lemma_wf_update(players: Seq<PlayerRecord>, i: int, record: PlayerRecord)
    requires
        records_wf(players),
        0 <= i < players.len(),
        record.data.wf(),
    ensures
        records_wf(players.update(i, record)),
{
    assert forall|j: int| 0 <= j < players.len() implies (#[trigger] players.update(
        i,
        record,
    )[j]).data.wf() by {
        if j != i {
            assert(players[j].data.wf());
        }
    }
}

impl InstallCard {
    /// Applies the command to `world` for the player `pid`: returns its status,
    /// or aborts. Unless it succeeds, nothing changes.
    pub fn handle(
        &self,
        pid: &[u64; 2],
        nonce: u64,
        rand: &[u64; 4],
        world: &mut World,
    ) -> (r: Result<Result<(), u32>, Abort>)
        requires
            old(world)@.wf(),
        ensures
            agrees(
                install_card_step(old(world)@, *pid, nonce, *rand),
                old(world)@,
                final(world)@,
                r,
            ),
            final(world)@.wf(),
    {
        let found = world.players.position(pid);
        match found {
            None => Ok(Err(ERROR_PLAYER_NOT_EXIST)),
            Some(i) => {
                assert(world.players@[i as int].data.wf());
                match world.players.players[i].toll(nonce) {
                    Err(abort) => Err(abort),
                    Ok(Err(status)) => Ok(Err(status)),
                    Ok(Ok(())) => {
                        let player = &world.players.players[i];
                        let mut local = player.data.holdings();
                        local[TREASURE] = local[TREASURE] - player.data.current_cost as i64;
                        proof {
                            let paid = toll(world.players@[i as int], nonce)->Ok_0->Ok_0;
                            assert(local@ =~= paid.data.local);
                        }
                        if !can_draw(&local, rand[1]) {
                            return Err(Abort::Fault);
                        }
                        world.players.players[i].pay(nonce);
                        world.players.players[i].data.generate_card(rand);
                        proof {
                            lemma_wf_update(old(world)@.players, i as int, world.players@[i as int]);
                            assert(world@ =~= install_card_step(
                                old(world)@,
                                *pid,
                                nonce,
                                *rand,
                            )->Applied_0);
                        }
                        Ok(Ok(()))
                    },
                }
            },
        }
    }
}

impl InstallObject {
    /// Applies the command to `world` for the player `pid`: returns its status,
    /// or aborts. Unless it succeeds, nothing changes.
    pub fn handle(
        &self,
        pid: &[u64; 2],
        nonce: u64,
        _rand: &[u64; 4],
        world: &mut World,
    ) -> (r: Result<Result<(), u32>, Abort>)
        requires
            old(world)@.wf(),
        ensures
            agrees(
                install_object_step(old(world)@, *pid, nonce, *self),
                old(world)@,
                final(world)@,
                r,
            ),
            final(world)@.wf(),
    {
        let found = world.players.position(pid);
        match found {
            None => Ok(Err(ERROR_PLAYER_NOT_EXIST)),
            Some(i) => {
                assert(world.players@[i as int].data.wf());
                let player = &world.players.players[i];
                if !(player.nonce == nonce && nonce < u64::MAX) {
                    return Err(Abort::NonceMismatch);
                }
                if player.data.objects.len() != self.object_index {
                    return Err(Abort::Fault);
                }
                match player.toll(nonce) {
                    Err(abort) => Err(abort),
                    Ok(Err(status)) => Ok(Err(status)),
                    Ok(Ok(())) => {
                        if self.modifiers[0] as usize >= player.data.cards.len() {
                            return Err(Abort::Fault);
                        }
                        let counter = world.state.queue.counter;
                        world.players.players[i].pay(nonce);
                        let mut object = Object::new(self.modifiers);
                        object.start_new_modifier(0, counter);
                        let first = self.modifiers[0] as usize;
                        let delay = world.players.players[i].data.cards[first].duration;
                        world.players.players[i].data.objects.push(object);
                        world.state.queue.insert(
                            Event { object_index: self.object_index, owner: *pid, delta: delay },
                        );
                        proof {
                            assert(object.attributes =~= new_object(
                                self.modifiers,
                                counter,
                            ).attributes);
                            assert(object == new_object(self.modifiers, counter));
                            let paid = toll(old(world)@.players[i as int], nonce)->Ok_0->Ok_0;
                            let data = world.players@[i as int].data;
                            assert(data =~= (PlayerModel {
                                objects: paid.data.objects.push(object),
                                ..paid.data
                            }));
                            assert forall|j: int| 0 <= j < data.objects.len() implies (
                            #[trigger] data.objects[j]).wf() by {
                                if j < paid.data.objects.len() {
                                    assert(paid.data.objects[j].wf());
                                }
                            }
                            lemma_wf_update(old(world)@.players, i as int, world.players@[i as int]);
                            assert(world@ =~= install_object_step(
                                old(world)@,
                                *pid,
                                nonce,
                                *self,
                            )->Applied_0);
                        }
                        Ok(Ok(()))
                    },
                }
            },
        }
    }
}

impl RestartObject {
    /// Applies the command to `world` for the player `pid`: returns its status,
    /// or aborts. Unless it succeeds, nothing changes.
    pub fn handle(
        &self,
        pid: &[u64; 2],
        nonce: u64,
        _rand: &[u64; 4],
        world: &mut World,
    ) -> (r: Result<Result<(), u32>, Abort>)
        requires
            old(world)@.wf(),
        ensures
            agrees(
                restart_object_step(old(world)@, *pid, nonce, *self),
                old(world)@,
                final(world)@,
                r,
            ),
            final(world)@.wf(),
    {
        let found = world.players.position(pid);
        match found {
            None => Ok(Err(ERROR_PLAYER_NOT_EXIST)),
            Some(i) => {
                assert(world.players@[i as int].data.wf());
                match world.players.players[i].toll(nonce) {
                    Err(abort) => Err(abort),
                    Ok(Err(status)) => Ok(Err(status)),
                    Ok(Ok(())) => {
                        // Paying changes neither automata nor cards, so the
                        // restart can be judged before.
                        if !world.players.players[i].data.can_restart(
                            self.object_index,
                            &self.modifiers,
                        ) {
                            return Err(Abort::Fault);
                        }
                        let counter = world.state.queue.counter;
                        world.players.players[i].pay(nonce);
                        let delay = world.players.players[i].data.restart_object_card(
                            self.object_index,
                            self.modifiers,
                            counter,
                        );
                        if let Some(delay) = delay {
                            world.state.queue.insert(
                                Event { object_index: self.object_index, owner: *pid, delta: delay },
                            );
                        }
                        proof {
                            lemma_wf_update(old(world)@.players, i as int, world.players@[i as int]);
                            assert(world@ =~= restart_object_step(
                                old(world)@,
                                *pid,
                                nonce,
                                *self,
                            )->Applied_0);
                        }
                        Ok(Ok(()))
                    },
                }
            },
        }
    }
}

/// The step of a withdrawal: the amount, the low 32 bits of the first
/// payload word, leaves the treasure, and the payload waits for settlement.
pub open spec fn withdraw_step(w: WorldModel, pid: [u64; 2], nonce: u64, cmd: Withdraw) -> Step {
    match position_of(w.players, id_of(pid)) {
        None => Step::Rejected(ERROR_PLAYER_NOT_EXIST),
        Some(i) => {
            let record = w.players[i];
            let amount = cmd.data[0] & 0xffffffff;
            if !nonce_matches(record, nonce) {
                Step::Aborted(Abort::NonceMismatch)
            } else if record.data.treasure() < amount {
                Step::Rejected(ERROR_NOT_ENOUGH_BALANCE)
            } else {
                Step::Applied(
                    WorldModel {
                        settlement: w.settlement.push(cmd.data),
                        ..w.with_player(
                            i,
                            record.stepped().with_data(record.data.charged(amount as int)),
                        )
                    },
                )
            }
        },
    }
}

/// The players after `amount` was added to the treasure of the player
/// `target`, who is created where there is no such player.
pub open spec fn credited(players: Seq<PlayerRecord>, target: (u64, u64), amount: int) -> Seq<
    PlayerRecord,
> {
    match position_of(players, target) {
        Some(j) => players.update(j, players[j].with_data(players[j].data.charged(-amount))),
        None => players.push(
            PlayerRecord::fresh(target).with_data(PlayerModel::fresh().charged(-amount)),
        ),
    }
}

/// The treasure of the player `target`, or of a new player where there is none.
pub open spec fn treasure_of(players: Seq<PlayerRecord>, target: (u64, u64)) -> int {
    match position_of(players, target) {
        Some(j) => players[j].data.treasure() as int,
        None => PlayerModel::fresh().treasure() as int,
    }
}

/// The step of a deposit by the administrator `pid`: the third payload word
/// is added to the treasure of the player named by the first two.
pub open spec fn deposit_step(w: WorldModel, pid: [u64; 2], nonce: u64, cmd: Deposit) -> Step {
    match position_of(w.players, id_of(pid)) {
        None => Step::Aborted(Abort::Fault),
        Some(i) => {
            let target = (cmd.data[0], cmd.data[1]);
            if !nonce_matches(w.players[i], nonce) {
                Step::Aborted(Abort::NonceMismatch)
            } else if treasure_of(w.players, target) + cmd.data[2] > i64::MAX {
                Step::Aborted(Abort::Fault)
            } else {
                Step::Applied(
                    WorldModel {
                        players: credited(
                            w.players.update(i, w.players[i].stepped()),
                            target,
                            cmd.data[2] as int,
                        ),
                        ..w
                    },
                )
            }
        },
    }
}

/// Cost of the first bounty beyond the range of a resource.
pub const BOUNTY_ROUNDS: u8 = 59;

/// The step of a bounty on resource `bounty_index`: where the player holds
/// more of it than the bounty costs, the cost leaves the resource, the bounty
/// counts as redeemed once more, and the reward enters the treasure.
pub open spec fn bounty_step(w: WorldModel, pid: [u64; 2], nonce: u64, cmd: Bounty) -> Step {
    match position_of(w.players, id_of(pid)) {
        None => Step::Rejected(ERROR_PLAYER_NOT_EXIST),
        Some(i) => {
            let record = w.players[i];
            let index = cmd.bounty_index as int;
            if !nonce_matches(record, nonce) {
                Step::Aborted(Abort::NonceMismatch)
            } else if index >= record.data.local.len() {
                Step::Rejected(ERROR_INDEX_OUT_OF_BOUND)
            } else {
                let redeemed = record.data.redeem_info[index];
                let cost = bounty_cost(2, redeemed as nat);
                let reward = bounty_reward(4, redeemed as int);
                if record.data.local[index] <= cost {
                    Step::Rejected(ERROR_NOT_ENOUGH_RESOURCE)
                } else {
                    let spent = PlayerModel {
                        local: record.data.local.update(
                            index,
                            (record.data.local[index] - cost) as i64,
                        ),
                        redeem_info: record.data.redeem_info.update(index, (redeemed + 1) as u8),
                        ..record.data
                    };
                    if spent.treasure() + reward > i64::MAX {
                        Step::Aborted(Abort::Fault)
                    } else {
                        Step::Applied(
                            w.with_player(i, record.stepped().with_data(spent.charged(-reward))),
                        )
                    }
                }
            }
        },
    }
}

/// Trades a local resource for treasure.
#[derive(Clone, Copy, Debug, PartialEq, Eq)]
pub struct Bounty {
    pub bounty_index: u64,
}

/// Adds the third word to the treasure of the player named by the first two.
#[derive(Clone, Copy, Debug, PartialEq, Eq)]
pub struct Deposit {
    pub data: [u64; 3],
}

/// Takes the low 32 bits of the first word from the treasure for settlement.
#[derive(Clone, Copy, Debug, PartialEq, Eq)]
pub struct Withdraw {
    pub data: [u64; 3],
}

proof fn lemma_low_word(w: u64)
    by (bit_vector)
    ensures
        w & 0xffffffff <= 0xffffffff,
{
}

impl Withdraw {
    /// Applies the command to `world` for the player `pid`: returns its status,
    /// or aborts. Unless it succeeds, nothing changes.
    pub fn handle(
        &self,
        pid: &[u64; 2],
        nonce: u64,
        _rand: &[u64; 4],
        world: &mut World,
    ) -> (r: Result<Result<(), u32>, Abort>)
        requires
            old(world)@.wf(),
        ensures
            agrees(
                withdraw_step(old(world)@, *pid, nonce, *self),
                old(world)@,
                final(world)@,
                r,
            ),
            final(world)@.wf(),
    {
        let found = world.players.position(pid);
        match found {
            None => Ok(Err(ERROR_PLAYER_NOT_EXIST)),
            Some(i) => {
                assert(world.players@[i as int].data.wf());
                let amount = self.data[0] & 0xffffffff;
                proof {
                    lemma_low_word(self.data[0]);
                }
                let player = &world.players.players[i];
                if !(player.nonce == nonce && nonce < u64::MAX) {
                    return Err(Abort::NonceMismatch);
                }
                if player.data.local.0[TREASURE] < amount as i64 {
                    return Ok(Err(ERROR_NOT_ENOUGH_BALANCE));
                }
                world.players.players[i].check_and_inc_nonce(nonce);
                let _ = world.players.players[i].data.cost_balance(amount as i64);
                world.settlement.append_settlement(self.data);
                proof {
                    lemma_wf_update(old(world)@.players, i as int, world.players@[i as int]);
                    assert(world@ =~= withdraw_step(old(world)@, *pid, nonce, *self)->Applied_0);
                }
                Ok(Ok(()))
            },
        }
    }
}

impl Deposit {
    /// Applies the command to `world` for the player `pid`: returns its status,
    /// or aborts. Unless it succeeds, nothing changes.
    pub fn handle(
        &self,
        pid: &[u64; 2],
        nonce: u64,
        _rand: &[u64; 4],
        world: &mut World,
    ) -> (r: Result<Result<(), u32>, Abort>)
        requires
            old(world)@.wf(),
        ensures
            agrees(
                deposit_step(old(world)@, *pid, nonce, *self),
                old(world)@,
                final(world)@,
                r,
            ),
            final(world)@.wf(),
    {
        let found = world.players.position(pid);
        match found {
            None => Err(Abort::Fault),
            Some(i) => {
                if !(world.players.players[i].nonce == nonce && nonce < u64::MAX) {
                    return Err(Abort::NonceMismatch);
                }
                let target = [self.data[0], self.data[1]];
                let amount = self.data[2];
                let ghost before = world.players@;
                let ghost stepped = before.update(i as int, before[i as int].stepped());
                proof {
                    lemma_position_update(
                        before,
                        i as int,
                        before[i as int].stepped(),
                        id_of(target),
                        0,
                    );
                    lemma_position_found(before, id_of(target), 0);
                    lemma_wf_update(before, i as int, before[i as int].stepped());
                }
                match world.players.position(&target) {
                    Some(j) => {
                        assert(before[j as int].data.wf());
                        let treasure = world.players.players[j].data.local.0[TREASURE];
                        if amount > i64::MAX as u64 || treasure > i64::MAX - amount as i64 {
                            return Err(Abort::Fault);
                        }
                        world.players.players[i].check_and_inc_nonce(nonce);
                        assert(world.players@ =~= stepped);
                        let _ = world.players.players[j].data.cost_balance(-(amount as i64));
                        proof {
                            lemma_wf_update(stepped, j as int, world.players@[j as int]);
                            assert(world.players@ =~= stepped.update(j as int, world.players@[j as int]));
                            assert(world@ =~= deposit_step(old(world)@, *pid, nonce, *self)->Applied_0);
                        }
                        Ok(Ok(()))
                    },
                    None => {
                        if amount > i64::MAX as u64 {
                            return Err(Abort::Fault);
                        }
                        world.players.players[i].check_and_inc_nonce(nonce);
                        assert(world.players@ =~= stepped);
                        let mut player = AutomataPlayer::new_from_pid(target);
                        let _ = player.data.cost_balance(-(amount as i64));
                        world.players.add(player);
                        proof {
                            assert(player@ =~= PlayerRecord::fresh(id_of(target)).with_data(
                                PlayerModel::fresh().charged(-(amount as int)),
                            ));
                            assert forall|k: int| 0 <= k < world.players@.len() implies (
                            #[trigger] world.players@[k]).data.wf() by {
                                if k < stepped.len() {
                                    assert(stepped[k].data.wf());
                                }
                            }
                            assert(world@ =~= deposit_step(old(world)@, *pid, nonce, *self)->Applied_0);
                        }
                        Ok(Ok(()))
                    },
                }
            },
        }
    }
}

/// A bounty that was redeemed at most 58 times costs less than the largest
/// amount of a resource, and one that was redeemed more often costs more.
proof fn lemma_bounty_cost_range(redeemed: nat)
    ensures
        redeemed < BOUNTY_ROUNDS ==> 20 <= bounty_cost(2, redeemed) <= 0x5000_0000_0000_0000,
        redeemed >= BOUNTY_ROUNDS ==> bounty_cost(2, redeemed) > i64::MAX,
{
    lemma2_to64_rest();
    lemma_pow2(58);
    lemma_pow2(59);
    lemma_pow2(0);
    lemma2_to64();
    if redeemed < BOUNTY_ROUNDS {
        lemma_pow_increases(2, redeemed, 58);
        lemma_pow_increases(2, 0, redeemed);
    } else {
        lemma_pow_increases(2, 59, redeemed);
    }
}

impl Bounty {
    /// Applies the command to `world` for the player `pid`: returns its status,
    /// or aborts. Unless it succeeds, nothing changes.
    pub fn handle(
        &self,
        pid: &[u64; 2],
        nonce: u64,
        _rand: &[u64; 4],
        world: &mut World,
    ) -> (r: Result<Result<(), u32>, Abort>)
        requires
            old(world)@.wf(),
        ensures
            agrees(
                bounty_step(old(world)@, *pid, nonce, *self),
                old(world)@,
                final(world)@,
                r,
            ),
            final(world)@.wf(),
    {
        let found = world.players.position(pid);
        match found {
            None => Ok(Err(ERROR_PLAYER_NOT_EXIST)),
            Some(i) => {
                assert(world.players@[i as int].data.wf());
                let player = &world.players.players[i];
                if !(player.nonce == nonce && nonce < u64::MAX) {
                    return Err(Abort::NonceMismatch);
                }
                if self.bounty_index >= player.data.local.0.len() as u64 {
                    return Ok(Err(ERROR_INDEX_OUT_OF_BOUND));
                }
                let index = self.bounty_index as usize;
                let redeemed = player.data.redeem_info[index];
                let held = player.data.local.0[index];
                proof {
                    lemma_bounty_cost_range(redeemed as nat);
                }
                if redeemed >= BOUNTY_ROUNDS {
                    return Ok(Err(ERROR_NOT_ENOUGH_RESOURCE));
                }
                let config = Config::new();
                let cost = config.get_bounty_cost(redeemed as u64);
                if held <= cost as i64 {
                    return Ok(Err(ERROR_NOT_ENOUGH_RESOURCE));
                }
                assert(4 * (redeemed + 1) <= 236);
                let reward = config.get_bounty_reward(redeemed as u64);
                let treasure = if index == TREASURE {
                    held - cost as i64
                } else {
                    player.data.local.0[TREASURE]
                };
                if treasure > i64::MAX - reward as i64 {
                    return Err(Abort::Fault);
                }
                world.players.players[i].check_and_inc_nonce(nonce);
                world.players.players[i].data.local.0[index] = held - cost as i64;
                world.players.players[i].data.redeem_info[index] += 1;
                let ghost record = old(world)@.players[i as int];
                let ghost spent = PlayerModel {
                    local: record.data.local.update(index as int, (held - cost) as i64),
                    redeem_info: record.data.redeem_info.update(index as int, (redeemed + 1) as u8),
                    ..record.data
                };
                assert(world.players@[i as int].data =~= spent);
                let _ = world.players.players[i].data.cost_balance(-(reward as i64));
                proof {
                    assert(spent.wf());
                    lemma_wf_update(old(world)@.players, i as int, world.players@[i as int]);
                    assert(world@ =~= bounty_step(old(world)@, *pid, nonce, *self)->Applied_0);
                }
                Ok(Ok(()))
            },
        }
    }
}

/// What a transaction asks for.
#[derive(Clone, Copy, Debug, PartialEq, Eq)]
pub enum Command {
    UpgradeObject(UpgradeObject),
    InstallObject(InstallObject),
    RestartObject(RestartObject),
    InstallCard(InstallCard),
    Withdraw(Withdraw),
    Deposit(Deposit),
    Bounty(Bounty),
    InstallPlayer,
    Tick,
}

/// A command with the number that its player's transactions have reached.
#[derive(Clone, Copy, Debug, PartialEq, Eq)]
pub struct Transaction {
    pub nonce: u64,
    pub command: Command,
}

/// Command codes, in the low byte of the first parameter word.
pub const INSTALL_PLAYER: u64 = 1;

pub const INSTALL_OBJECT: u64 = 2;

pub const RESTART_OBJECT: u64 = 3;

pub const UPGRADE_OBJECT: u64 = 4;

pub const INSTALL_CARD: u64 = 5;

pub const WITHDRAW: u64 = 6;

pub const DEPOSIT: u64 = 7;

/// Code 8 is the bounty's alone; every code that is none of the eight is a tick.
pub const BOUNTY: u64 = 8;

/// The eight bytes of `w`, least significant first, as a program.
pub open spec fn program_of(w: u64) -> [u8; 8] {
    [
        (w & 0xff) as u8,
        ((w >> 8) & 0xff) as u8,
        ((w >> 16) & 0xff) as u8,
        ((w >> 24) & 0xff) as u8,
        ((w >> 32) & 0xff) as u8,
        ((w >> 40) & 0xff) as u8,
        ((w >> 48) & 0xff) as u8,
        ((w >> 56) & 0xff) as u8,
    ]
}

/// The transaction that four parameter words stand for.
///
/// The first word holds the command in its low byte, the index of an
/// automaton in the next byte, and above them the number of the transaction.
/// The other three are the command's payload.
pub open spec fn decoded(params: Seq<u64>) -> Transaction {
    let command = params[0] & 0xff;
    let object_index = ((params[0] >> 8) & 0xff) as usize;
    Transaction {
        nonce: params[0] >> 16,
        command: if command == WITHDRAW {
            Command::Withdraw(Withdraw { data: [params[1], params[2], params[3]] })
        } else if command == INSTALL_OBJECT {
            Command::InstallObject(
                InstallObject { object_index, modifiers: program_of(params[1]) },
            )
        } else if command == RESTART_OBJECT {
            Command::RestartObject(
                RestartObject { object_index, modifiers: program_of(params[1]) },
            )
        } else if command == DEPOSIT {
            Command::Deposit(Deposit { data: [params[1], params[2], params[3]] })
        } else if command == UPGRADE_OBJECT {
            Command::UpgradeObject(UpgradeObject { object_index, feature_index: params[1] })
        } else if command == BOUNTY {
            Command::Bounty(Bounty { bounty_index: params[1] })
        } else if command == INSTALL_CARD {
            Command::InstallCard(InstallCard {  })
        } else if command == INSTALL_PLAYER {
            Command::InstallPlayer
        } else {
            Command::Tick
        },
    }
}

/// The step of a tick: the clock advances unless it would leave its 48 bits
/// or handling a due event is not defined.
pub open spec fn tick_step(w: WorldModel) -> Step {
    if w.queue.counter + 1 >= TICK_LIMIT {
        Step::Aborted(Abort::Fault)
    } else {
        match ticked(w.players, w.queue, w.storage) {
            None => Step::Aborted(Abort::Fault),
            Some((players, queue)) => Step::Applied(WorldModel { players, queue, ..w }),
        }
    }
}

/// The step that transaction `tx` makes where it is signed with the key
/// `pkey` of the player `pid` and comes with the random words `rand`.
///
/// Deposits and ticks are the administrator's.
pub open spec fn processed(
    w: WorldModel,
    tx: Transaction,
    pkey: [u64; 4],
    pid: [u64; 2],
    rand: [u64; 4],
) -> Step {
    match tx.command {
        Command::InstallPlayer => install_player_step(w, pid),
        Command::InstallObject(cmd) => install_object_step(w, pid, tx.nonce, cmd),
        Command::RestartObject(cmd) => restart_object_step(w, pid, tx.nonce, cmd),
        Command::UpgradeObject(cmd) => upgrade_object_step(w, pid, tx.nonce, cmd),
        Command::Withdraw(cmd) => withdraw_step(w, pid, tx.nonce, cmd),
        Command::InstallCard(_) => install_card_step(w, pid, tx.nonce, rand),
        Command::Deposit(cmd) => if key_of(pkey) != w.admin {
            Step::Aborted(Abort::NotAdmin)
        } else {
            deposit_step(w, pid, tx.nonce, cmd)
        },
        Command::Bounty(cmd) => bounty_step(w, pid, tx.nonce, cmd),
        Command::Tick => if key_of(pkey) != w.admin {
            Step::Aborted(Abort::NotAdmin)
        } else {
            tick_step(w)
        },
    }
}

proof fn lemma_command_fields(w: u64)
    by (bit_vector)
    ensures
        (w >> 8) & 0xff <= 0xff,
{
}

impl World {
    /// A world at tick zero with the given administrator, no player,
    /// nothing stored and no withdrawal waiting.
    pub fn new(admin: [u64; 4]) -> (world: Self)
        ensures
            world@.admin == key_of(admin),
            world@.supplier == INITIAL_SUPPLY,
            world@.queue.counter == 0,
            world@.queue.schedule == Seq::<Scheduled>::empty(),
            world@.players == Seq::<PlayerRecord>::empty(),
            world@.storage == Map::<Key, Seq<u64>>::empty(),
            world@.settlement == Seq::<[u64; 3]>::empty(),
            world@.wf(),
    {
        World {
            admin,
            state: State::new(),
            players: Registry::new(),
            storage: Storage::new(),
            settlement: SettlementInfo::new(),
        }
    }

    /// Whether the world is well-formed.
    pub fn well_formed(&self) -> (ok: bool)
        ensures
            ok == self@.wf(),
    {
        self.state.queue.counter < TICK_LIMIT && self.players.well_formed()
    }

    /// Whether `pkey` is the administrator's key.
    pub fn is_admin(&self, pkey: &[u64; 4]) -> (yes: bool)
        ensures
            yes == (key_of(*pkey) == self@.admin),
    {
        pkey[0] == self.admin[0] && pkey[1] == self.admin[1] && pkey[2] == self.admin[2] && pkey[3]
            == self.admin[3]
    }
}

impl Transaction {
    /// The name of a status.
    pub fn decode_error(e: u32) -> (name: &'static str)
        ensures
            name@ == if e == ERROR_PLAYER_NOT_EXIST {
                "PlayerNotExist"@
            } else if e == ERROR_PLAYER_ALREADY_EXIST {
                "PlayerAlreadyExist"@
            } else if e == ERROR_NOT_ENOUGH_BALANCE {
                "NotEnoughBalance"@
            } else if e == ERROR_INDEX_OUT_OF_BOUND {
                "IndexOutofBound"@
            } else if e == ERROR_NOT_ENOUGH_RESOURCE {
                "NotEnoughResource"@
            } else {
                "Unknown"@
            },
    {
        if e == ERROR_PLAYER_NOT_EXIST {
            "PlayerNotExist"
        } else if e == ERROR_PLAYER_ALREADY_EXIST {
            "PlayerAlreadyExist"
        } else if e == ERROR_NOT_ENOUGH_BALANCE {
            "NotEnoughBalance"
        } else if e == ERROR_INDEX_OUT_OF_BOUND {
            "IndexOutofBound"
        } else if e == ERROR_NOT_ENOUGH_RESOURCE {
            "NotEnoughResource"
        } else {
            "Unknown"
        }
    }

    /// Reads a transaction from its four parameter words.
    pub fn decode(params: &[u64]) -> (tx: Self)
        requires
            params@.len() >= 4,
        ensures
            tx == decoded(params@),
    {
        let cmd = params[0] & 0xff;
        proof {
            lemma_command_fields(params[0]);
        }
        let object_index = ((params[0] >> 8) & 0xff) as usize;
        let nonce = params[0] >> 16;
        let command = if cmd == WITHDRAW {
            let data = [params[1], params[2], params[3]];
            assert(data =~= [params@[1], params@[2], params@[3]]);
            Command::Withdraw(Withdraw { data })
        } else if cmd == INSTALL_OBJECT {
            let modifiers = word_to_bytes(params[1]);
            assert(modifiers =~= program_of(params@[1]));
            Command::InstallObject(InstallObject { object_index, modifiers })
        } else if cmd == RESTART_OBJECT {
            let modifiers = word_to_bytes(params[1]);
            assert(modifiers =~= program_of(params@[1]));
            Command::RestartObject(RestartObject { object_index, modifiers })
        } else if cmd == DEPOSIT {
            let data = [params[1], params[2], params[3]];
            assert(data =~= [params@[1], params@[2], params@[3]]);
            Command::Deposit(Deposit { data })
        } else if cmd == UPGRADE_OBJECT {
            Command::UpgradeObject(UpgradeObject { object_index, feature_index: params[1] })
        } else if cmd == BOUNTY {
            Command::Bounty(Bounty { bounty_index: params[1] })
        } else if cmd == INSTALL_CARD {
            Command::InstallCard(InstallCard {  })
        } else if cmd == INSTALL_PLAYER {
            Command::InstallPlayer
        } else {
            Command::Tick
        };
        Transaction { command, nonce }
    }

    /// Creates the player `pid`, unless there is one.
    pub fn install_player(pid: &[u64; 2], world: &mut World) -> (r: Result<(), u32>)
        requires
            old(world)@.wf(),
        ensures
            agrees(
                install_player_step(old(world)@, *pid),
                old(world)@,
                final(world)@,
                Ok::<Result<(), u32>, Abort>(r),
            ),
            final(world)@.wf(),
    {
        match world.players.position(pid) {
            Some(_) => Err(ERROR_PLAYER_ALREADY_EXIST),
            None => {
                let player = AutomataPlayer::new_from_pid(*pid);
                world.players.add(player);
                proof {
                    assert forall|k: int| 0 <= k < world.players@.len() implies (
                    #[trigger] world.players@[k]).data.wf() by {
                        if k < old(world)@.players.len() {
                            assert(old(world)@.players[k].data.wf());
                        }
                    }
                    assert(world@ =~= install_player_step(old(world)@, *pid)->Applied_0);
                }
                Ok(())
            },
        }
    }

    /// Advances the clock of `world` by one tick.
    pub fn tick(world: &mut World) -> (r: Result<(), Abort>)
        requires
            old(world)@.wf(),
        ensures
            match tick_step(old(world)@) {
                Step::Applied(w) => r is Ok && final(world)@ == w,
                Step::Rejected(_) => false,
                Step::Aborted(abort) => r == Err::<(), Abort>(abort),
            },
            final(world)@.wf(),
            energy_kept(old(world)@.players, final(world)@.players),
    {
        if world.state.queue.counter >= TICK_LIMIT - 1 {
            assert(energy_kept(world@.players, world@.players));
            return Err(Abort::Fault);
        }
        let r = world.state.queue.tick(&mut world.players, &world.storage);
        proof {
            if r is Ok {
                assert(world@ =~= tick_step(old(world)@)->Applied_0);
            }
        }
        r
    }

    /// Applies the transaction to `world`, for the player `pid` who signed it
    /// with the key `pkey`, and returns its status: zero where it succeeded.
    ///
    /// A transaction that fails with a status changes nothing. Neither does
    /// one that is aborted, unless it is a tick.
    pub fn process(
        &self,
        pkey: &[u64; 4],
        pid: &[u64; 2],
        rand: &[u64; 4],
        world: &mut World,
    ) -> (r: Result<Vec<u64>, Abort>)
        requires
            old(world)@.wf(),
        ensures
            match processed(old(world)@, *self, *pkey, *pid, *rand) {
                Step::Applied(w) => r matches Ok(status) && status@ == seq![0u64] && final(world)@
                    == w,
                Step::Rejected(e) => r matches Ok(status) && status@ == seq![e as u64]
                    && final(world)@ == old(world)@,
                Step::Aborted(abort) => r == Err::<Vec<u64>, Abort>(abort) && (self.command
                    is Tick || final(world)@ == old(world)@),
            },
            final(world)@.wf(),
    {
        let outcome = match self.command {
            Command::InstallPlayer => Ok(Self::install_player(pid, world)),
            Command::InstallObject(cmd) => cmd.handle(pid, self.nonce, rand, world),
            Command::RestartObject(cmd) => cmd.handle(pid, self.nonce, rand, world),
            Command::UpgradeObject(cmd) => cmd.handle(pid, self.nonce, rand, world),
            Command::Withdraw(cmd) => cmd.handle(pid, self.nonce, rand, world),
            Command::InstallCard(cmd) => cmd.handle(pid, self.nonce, rand, world),
            Command::Deposit(cmd) => {
                if !world.is_admin(pkey) {
                    Err(Abort::NotAdmin)
                } else {
                    cmd.handle(pid, self.nonce, rand, world)
                }
            },
            Command::Bounty(cmd) => cmd.handle(pid, self.nonce, rand, world),
            Command::Tick => {
                if !world.is_admin(pkey) {
                    Err(Abort::NotAdmin)
                } else {
                    match Self::tick(world) {
                        Ok(()) => Ok(Ok(())),
                        Err(abort) => Err(abort),
                    }
                }
            },
        };
        match outcome {
            Err(abort) => Err(abort),
            Ok(done) => {
                let b: u32 = match done {
                    Ok(()) => 0,
                    Err(e) => e,
                };
                let mut status: Vec<u64> = Vec::new();
                status.push(b as u64);
                assert(status@ =~= seq![b as u64]);
                Ok(status)
            },
        }
    }
}

/// Every automaton of every player is below level 129.
pub open spec fn levels_capped(players: Seq<PlayerRecord>) -> bool {
    forall|i: int, j: int|
        0 <= i < players.len() && 0 <= j < players[i].data.objects.len() ==> (
        #[trigger] players[i].data.objects[j]).attributes[0] < 129
}

/// Every automaton of the player is below level 129.
pub open spec fn player_capped(player: PlayerModel) -> bool {
    forall|j: int|
        0 <= j < player.objects.len() ==> (#[trigger] player.objects[j]).attributes[0] < 129
}

/// The transaction upgrades the level itself of an automaton at level 127,
/// which takes the automaton to level 129.
pub open spec fn doubles_last_level(w: WorldModel, tx: Transaction, pid: [u64; 2]) -> bool {
    tx.command matches Command::UpgradeObject(cmd) && cmd.feature_index == 0 && (position_of(
        w.players,
        id_of(pid),
    ) matches Some(i) && 0 <= cmd.object_index < w.players[i].data.objects.len()
        && w.players[i].data.objects[cmd.object_index as int].attributes[0] == 127)
}

proof fn lemma_capped_update(players: Seq<PlayerRecord>, i: int, record: PlayerRecord)
    requires
        levels_capped(players),
        0 <= i < players.len(),
        player_capped(record.data),
    ensures
        levels_capped(players.update(i, record)),
{
    let after = players.update(i, record);
    assert forall|a: int, j: int|
        0 <= a < after.len() && 0 <= j < after[a].data.objects.len() implies (
    #[trigger] after[a].data.objects[j]).attributes[0] < 129 by {
        if a != i {
            assert(players[a].data.objects[j].attributes[0] < 129);
        } else {
            assert(record.data.objects[j].attributes[0] < 129);
        }
    }
}

proof fn lemma_capped_push(players: Seq<PlayerRecord>, record: PlayerRecord)
    requires
        levels_capped(players),
        player_capped(record.data),
    ensures
        levels_capped(players.push(record)),
{
    let after = players.push(record);
    assert forall|a: int, j: int|
        0 <= a < after.len() && 0 <= j < after[a].data.objects.len() implies (
    #[trigger] after[a].data.objects[j]).attributes[0] < 129 by {
        if a < players.len() {
            assert(players[a].data.objects[j].attributes[0] < 129);
        } else {
            assert(record.data.objects[j].attributes[0] < 129);
        }
    }
}

proof fn lemma_capped_at(players: Seq<PlayerRecord>, i: int)
    requires
        levels_capped(players),
        0 <= i < players.len(),
    ensures
        player_capped(players[i].data),
{
    assert forall|j: int| 0 <= j < players[i].data.objects.len() implies (
    #[trigger] players[i].data.objects[j]).attributes[0] < 129 by {
        assert(players[i].data.objects[j].attributes[0] < 129);
    }
}

/// Handling events changes no level.
proof fn lemma_through_capped(players: Seq<PlayerRecord>, events: Seq<Event>, counter: u64)
    requires
        levels_capped(players),
    ensures
        players_through(players, events, counter) matches Some(after) ==> levels_capped(after),
    decreases events.len(),
{
    if events.len() > 0 && can_fire_on(players, events[0]) {
        let i = position_of(players, id_of(events[0].owner)).unwrap();
        lemma_position_found(players, id_of(events[0].owner), 0);
        lemma_capped_at(players, i);
        let handled = players[i].data.handled(events[0].object_index as int, counter);
        assert forall|j: int| 0 <= j < handled.objects.len() implies (
        #[trigger] handled.objects[j]).attributes[0] < 129 by {
            assert(players[i].data.objects[j].attributes[0] < 129);
        }
        lemma_capped_update(players, i, players[i].with_data(handled));
        lemma_through_capped(
            players_after(players, events[0], counter),
            events.drop_first(),
            counter,
        );
    }
}

/// No transaction takes an automaton to level 129 or beyond, but the
/// upgrade of the level itself of an automaton at level 127.
pub proof fn lemma_level_cap(
    w: WorldModel,
    tx: Transaction,
    pkey: [u64; 4],
    pid: [u64; 2],
    rand: [u64; 4],
)
    requires
        w.wf(),
        levels_capped(w.players),
        !doubles_last_level(w, tx, pid),
    ensures
        processed(w, tx, pkey, pid, rand) matches Step::Applied(after) ==> levels_capped(
            after.players,
        ),
{
    let step = processed(w, tx, pkey, pid, rand);
    if step is Applied {
        let after = step->Applied_0;
        lemma_position_found(w.players, id_of(pid), 0);
        match tx.command {
            Command::Tick => {
                lemma_ticked_players(w.players, w.queue, w.storage);
                lemma_through_capped(w.players, due_now(w.queue, w.storage), w.queue.counter);
            },
            Command::InstallPlayer => {
                lemma_capped_push(w.players, PlayerRecord::fresh(id_of(pid)));
            },
            Command::Deposit(cmd) => {
                let i = position_of(w.players, id_of(pid)).unwrap();
                let target = (cmd.data[0], cmd.data[1]);
                lemma_capped_at(w.players, i);
                lemma_capped_update(w.players, i, w.players[i].stepped());
                let stepped = w.players.update(i, w.players[i].stepped());
                lemma_position_found(stepped, target, 0);
                match position_of(stepped, target) {
                    Some(j) => {
                        lemma_capped_at(stepped, j);
                        lemma_capped_update(
                            stepped,
                            j,
                            stepped[j].with_data(stepped[j].data.charged(-(cmd.data[2] as int))),
                        );
                    },
                    None => {
                        lemma_capped_push(
                            stepped,
                            PlayerRecord::fresh(target).with_data(
                                PlayerModel::fresh().charged(-(cmd.data[2] as int)),
                            ),
                        );
                    },
                }
            },
            _ => {
                let i = position_of(w.players, id_of(pid)).unwrap();
                lemma_capped_at(w.players, i);
                let record = after.players[i];
                assert(after.players =~= w.players.update(i, record));
                assert forall|j: int| 0 <= j < record.data.objects.len() implies (
                #[trigger] record.data.objects[j]).attributes[0] < 129 by {
                    if j < w.players[i].data.objects.len() {
                        assert(w.players[i].data.objects[j].attributes[0] < 129);
                    }
                }
                lemma_capped_update(w.players, i, record);
            },
        }
    }
}

} // verus!
