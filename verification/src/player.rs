//! Players: energy, the rising cost of actions, automata, local resources
//! and owned cards.

use crate::card::{default_cards, default_cards_spec, lemma_card_words_injective, Card};
use crate::config::{
    can_draw, default_local, default_local_spec, drawable, generated_card, random_modifier,
    COST_INCREASE_ROUND,
    INITIAL_ENERGY,
};
use crate::error::ERROR_NOT_ENOUGH_BALANCE;
use crate::object::{
    lemma_object_words_injective, marked_restarting, running_at, with_status, Object,
    PROGRAM_SIZE, STATUS_HALTED, STATUS_RESTARTING, TICK_LIMIT,
};
use crate::word::{
    bytes_to_word, lemma_bytes_of_word_of, lemma_signed_word_round_trip, lemma_word_of_bytes_of,
    unsigned_word, word_of, word_to_bytes, word_to_signed, word_to_unsigned,
};
use vstd::prelude::*;

verus! {

/// Index of the local resource that pays for actions.
pub const TREASURE: usize = 7;

/// Energy that a paid action gives back.
pub const ENERGY_REFILL: u16 = 20;

/// An automaton at this level cannot be upgraded.
pub const LEVEL_LIMIT: u16 = 128;

/// A vector of resource amounts.
#[derive(Clone, Debug, PartialEq, Eq)]
pub struct Attributes(pub Vec<i64>);

impl View for Attributes {
    type V = Seq<i64>;

    open spec fn view(&self) -> Seq<i64> {
        self.0@
    }
}

/// Adding `delta` to `held` leaves no component that both have negative.
pub open spec fn applicable(held: Seq<i64>, delta: Seq<i64>) -> bool {
    forall|i: int|
        0 <= i < held.len() && i < delta.len() ==> (#[trigger] held[i]) + delta[i] >= 0
}

/// `held` with `delta` added on the components that both have.
pub open spec fn applied(held: Seq<i64>, delta: Seq<i64>) -> Seq<i64> {
    Seq::new(
        held.len(),
        |i: int|
            if i < delta.len() {
                (held[i] + delta[i]) as i64
            } else {
                held[i]
            },
    )
}

/// Every sum of a component of `held` and of `delta` fits a signed word.
pub open spec fn sums_fit(held: Seq<i64>, delta: Seq<i64>) -> bool {
    forall|i: int|
        0 <= i < held.len() && i < delta.len() ==> i64::MIN <= (#[trigger] held[i]) + delta[i]
            <= i64::MAX
}

impl Attributes {
    /// Adds `m` component by component, unless a sum would be negative: then
    /// nothing changes and the result is `false`.
    pub fn apply_modifier(&mut self, m: &Attributes) -> (ok: bool)
        requires
            sums_fit(old(self)@, m@),
        ensures
            ok == applicable(old(self)@, m@),
            ok ==> final(self)@ == applied(old(self)@, m@),
            !ok ==> final(self)@ == old(self)@,
    {
        let n = if self.0.len() < m.0.len() {
            self.0.len()
        } else {
            m.0.len()
        };
        let mut i: usize = 0;
        while i < n
            invariant
                i <= n,
                n <= self@.len(),
                n <= m@.len(),
                n == self@.len() || n == m@.len(),
                self@ == old(self)@,
                sums_fit(self@, m@),
                forall|j: int| 0 <= j < i ==> self@[j] + m@[j] >= 0,
            decreases n - i,
        {
            assert(i64::MIN <= self@[i as int] + m@[i as int] <= i64::MAX);
            if self.0[i] + m.0[i] < 0 {
                return false;
            }
            i += 1;
        }
        let mut i: usize = 0;
        while i < n
            invariant
                i <= n,
                n <= self@.len(),
                n <= m@.len(),
                n == self@.len() || n == m@.len(),
                self@.len() == old(self)@.len(),
                sums_fit(old(self)@, m@),
                applicable(old(self)@, m@),
                forall|j: int| 0 <= j < i ==> self@[j] == old(self)@[j] + m@[j],
                forall|j: int| i <= j < self@.len() ==> self@[j] == old(self)@[j],
            decreases n - i,
        {
            assert(i64::MIN <= old(self)@[i as int] + m@[i as int] <= i64::MAX);
            self.0[i] = self.0[i] + m.0[i];
            i += 1;
        }
        assert(self@ =~= applied(old(self)@, m@));
        true
    }

    /// The resources of a new player.
    pub fn default_local() -> (local: Self)
        ensures
            local@ == default_local_spec(),
    {
        let values = default_local();
        let mut local: Vec<i64> = Vec::new();
        let mut i: usize = 0;
        while i < 8
            invariant
                i <= 8,
                local@ == values@.subrange(0, i as int),
            decreases 8 - i,
        {
            local.push(values[i]);
            assert(local@ =~= values@.subrange(0, i + 1));
            i += 1;
        }
        assert(local@ =~= values@);
        Attributes(local)
    }
}

/// What a player holds.
#[derive(Clone, Debug, PartialEq, Eq)]
pub struct PlayerData {
    pub energy: u16,
    /// Paid actions left until the cost rises.
    pub cost_info: u16,
    pub current_cost: u32,
    /// Bounties redeemed so far, for each local resource.
    pub redeem_info: [u8; 8],
    pub objects: Vec<Object>,
    pub local: Attributes,
    pub cards: Vec<Card>,
}

/// What a player holds, as plain sequences.
#[verifier::ext_equal]
pub struct PlayerModel {
    pub energy: u16,
    pub cost_info: u16,
    pub current_cost: u32,
    pub redeem_info: Seq<u8>,
    pub objects: Seq<Object>,
    pub local: Seq<i64>,
    pub cards: Seq<Card>,
}

impl View for PlayerData {
    type V = PlayerModel;

    open spec fn view(&self) -> PlayerModel {
        PlayerModel {
            energy: self.energy,
            cost_info: self.cost_info,
            current_cost: self.current_cost,
            redeem_info: self.redeem_info@,
            objects: self.objects@,
            local: self.local@,
            cards: self.cards@,
        }
    }
}

/// The deltas of a card as resource amounts.
pub open spec fn card_delta(card: Card) -> Seq<i64> {
    Seq::new(8, |i: int| card.attributes[i] as i64)
}

/// After a card was applied, no resource is negative.
pub proof fn lemma_applied_nonnegative(held: Seq<i64>, card: Card)
    requires
        held.len() == 8,
        sums_fit(held, card_delta(card)),
        applicable(held, card_delta(card)),
    ensures
        forall|i: int| 0 <= i < 8 ==> #[trigger] applied(held, card_delta(card))[i] >= 0,
{
    assert forall|i: int| 0 <= i < 8 implies #[trigger] applied(held, card_delta(card))[i]
        >= 0 by {
        assert(held[i] + card_delta(card)[i] >= 0);
        assert(i64::MIN <= held[i] + card_delta(card)[i] <= i64::MAX);
    }
}

/// `attributes` after an upgrade of `feature`: the level rises by one, and
/// so does the chosen feature, which may be the level itself.
pub open spec fn upgraded_attributes(attributes: [u16; 4], feature: int) -> [u16; 4] {
    [
        (attributes[0] + 1 + if feature == 0 {
            1int
        } else {
            0int
        }) as u16,
        (attributes[1] + if feature == 1 {
            1int
        } else {
            0int
        }) as u16,
        (attributes[2] + if feature == 2 {
            1int
        } else {
            0int
        }) as u16,
        (attributes[3] + if feature == 3 {
            1int
        } else {
            0int
        }) as u16,
    ]
}

impl PlayerModel {
    /// A new player: full energy, free actions, the default resources and cards.
    pub open spec fn fresh() -> PlayerModel {
        PlayerModel {
            energy: INITIAL_ENERGY,
            cost_info: COST_INCREASE_ROUND,
            current_cost: 0,
            redeem_info: Seq::new(8, |i: int| 0u8),
            objects: Seq::empty(),
            local: default_local_spec(),
            cards: default_cards_spec(),
        }
    }

    /// The cost clock runs, there are eight resources and none is negative,
    /// every automaton is well-formed and every card lasts at least a tick.
    pub open spec fn wf(self) -> bool {
        &&& self.cost_info >= 1
        &&& self.redeem_info.len() == 8
        &&& self.local.len() == 8
        &&& forall|i: int| 0 <= i < 8 ==> #[trigger] self.local[i] >= 0
        &&& forall|i: int| 0 <= i < self.objects.len() ==> (#[trigger] self.objects[i]).wf()
        &&& forall|i: int| 0 <= i < self.cards.len() ==> (#[trigger] self.cards[i]).duration >= 1
    }

    /// The resource that pays for actions.
    pub open spec fn treasure(self) -> i64 {
        self.local[TREASURE as int]
    }

    /// The player with `amount` taken from the treasure.
    pub open spec fn charged(self, amount: int) -> PlayerModel {
        PlayerModel {
            local: self.local.update(TREASURE as int, (self.treasure() - amount) as i64),
            ..self
        }
    }

    /// The cost of an action after the next payment: it rises when the cost
    /// clock runs out, from zero to one and then to its double.
    pub open spec fn next_cost(self) -> int {
        if self.cost_info == 1 {
            if self.current_cost != 0 {
                2 * self.current_cost
            } else {
                1
            }
        } else {
            self.current_cost as int
        }
    }

    /// The player after paying for one action.
    pub open spec fn paid(self) -> PlayerModel {
        PlayerModel {
            cost_info: if self.cost_info == 1 {
                COST_INCREASE_ROUND
            } else {
                (self.cost_info - 1) as u16
            },
            current_cost: self.next_cost() as u32,
            energy: if self.energy + ENERGY_REFILL > 0xffff {
                0xffffu16
            } else {
                (self.energy + ENERGY_REFILL) as u16
            },
            ..self.charged(self.current_cost as int)
        }
    }

    /// The card at `position` of the program of automaton `object_index`
    /// is one that the player owns.
    pub open spec fn has_card(self, object_index: int, position: int) -> bool {
        (self.objects[object_index].cards[position] as int) < self.cards.len()
    }

    /// The card at `position` of the program of automaton `object_index`.
    pub open spec fn card_at(self, object_index: int, position: int) -> Card {
        self.cards[self.objects[object_index].cards[position] as int]
    }

    /// The player with automaton `object_index` replaced.
    pub open spec fn with_object(self, object_index: int, object: Object) -> PlayerModel {
        PlayerModel { objects: self.objects.update(object_index, object), ..self }
    }

    /// The automaton can be upgraded: it exists, the feature is one of four,
    /// the level is below the limit and the feature's value can still grow.
    pub open spec fn can_upgrade(self, object_index: int, feature: int) -> bool {
        &&& 0 <= object_index < self.objects.len()
        &&& 0 <= feature < 4
        &&& self.objects[object_index].attributes[0] < LEVEL_LIMIT
        &&& self.objects[object_index].attributes[feature] < u16::MAX
    }

    /// The player after an upgrade of `feature` of automaton `object_index`.
    pub open spec fn upgraded(self, object_index: int, feature: int) -> PlayerModel {
        let object = self.objects[object_index];
        self.with_object(
            object_index,
            Object { attributes: upgraded_attributes(object.attributes, feature), ..object },
        )
    }

    /// The position after `pointer` in the cyclic program.
    pub open spec fn next_position(pointer: int) -> int {
        (pointer + 1) % (PROGRAM_SIZE as int)
    }

    /// The current card of automaton `object_index` can be applied: no
    /// resource would become negative.
    pub open spec fn card_applies(self, object_index: int) -> bool {
        applicable(
            self.local,
            card_delta(self.card_at(object_index, self.objects[object_index].pointer() as int)),
        )
    }

    /// Firing automaton `object_index` is defined: there are eight resources,
    /// the automaton exists, the cards that are looked up are owned, and no
    /// sum leaves the range of a signed word.
    pub open spec fn can_fire(self, object_index: int) -> bool {
        &&& self.local.len() == 8
        &&& 0 <= object_index < self.objects.len()
        &&& {
            let object = self.objects[object_index];
            let pointer = object.pointer() as int;
            if object.status() == STATUS_RESTARTING {
                self.has_card(object_index, 0)
            } else {
                &&& pointer < PROGRAM_SIZE
                &&& self.has_card(object_index, pointer)
                &&& sums_fit(self.local, card_delta(self.card_at(object_index, pointer)))
                &&& self.card_applies(object_index) ==> self.has_card(
                    object_index,
                    Self::next_position(pointer),
                )
            }
        }
    }

    /// The player after automaton `object_index` fired at tick `counter`.
    ///
    /// A restart-pending automaton starts its program anew. Otherwise the
    /// current card is applied and the automaton moves on, or, where a
    /// resource would become negative, the automaton halts.
    pub open spec fn fired(self, object_index: int, counter: u64) -> PlayerModel {
        let object = self.objects[object_index];
        let pointer = object.pointer() as int;
        if object.status() == STATUS_RESTARTING {
            self.with_object(
                object_index,
                Object { modifier_info: running_at(0, counter), ..object },
            )
        } else if self.card_applies(object_index) {
            PlayerModel {
                local: applied(self.local, card_delta(self.card_at(object_index, pointer))),
                ..self
            }.with_object(
                object_index,
                Object {
                    modifier_info: running_at(Self::next_position(pointer) as u64, counter),
                    ..object
                },
            )
        } else {
            self.with_object(
                object_index,
                Object {
                    modifier_info: with_status(object.modifier_info, STATUS_HALTED),
                    ..object
                },
            )
        }
    }

    /// Ticks until automaton `object_index` fires again after firing now: the
    /// duration of the card it moves to, or nothing where it halts.
    pub open spec fn fired_delay(self, object_index: int) -> Option<u64> {
        let object = self.objects[object_index];
        let pointer = object.pointer() as int;
        if object.status() == STATUS_RESTARTING {
            Some(self.card_at(object_index, 0).duration)
        } else if self.card_applies(object_index) {
            Some(self.card_at(object_index, Self::next_position(pointer)).duration)
        } else {
            None
        }
    }

    /// Giving automaton `object_index` the program `program` is defined: the
    /// automaton exists and, where it is halted, the card of the new
    /// program at its position is owned.
    pub open spec fn can_restart(self, object_index: int, program: [u8; 8]) -> bool {
        &&& 0 <= object_index < self.objects.len()
        &&& self.objects[object_index].status() == STATUS_HALTED ==> {
            &&& self.objects[object_index].pointer() < PROGRAM_SIZE
            &&& (program[self.objects[object_index].pointer() as int] as int) < self.cards.len()
        }
    }

    /// The player after automaton `object_index` got the program `program`
    /// at tick `counter`: a halted automaton runs again from the start, any
    /// other is marked as restart-pending and keeps its other bits.
    pub open spec fn restarted(
        self,
        object_index: int,
        program: [u8; 8],
        counter: u64,
    ) -> PlayerModel {
        let object = self.objects[object_index];
        if object.status() == STATUS_HALTED {
            self.with_object(
                object_index,
                Object { modifier_info: counter, cards: program, ..object },
            )
        } else {
            self.with_object(
                object_index,
                Object {
                    modifier_info: marked_restarting(object.modifier_info),
                    cards: program,
                    ..object
                },
            )
        }
    }

    /// Ticks until a halted automaton that got the program `program` fires:
    /// the duration of the new program's card at the position where it
    /// halted. Any other automaton keeps its pending event.
    pub open spec fn restart_delay(self, object_index: int, program: [u8; 8]) -> Option<u64> {
        let object = self.objects[object_index];
        if object.status() == STATUS_HALTED {
            Some(self.cards[program[object.pointer() as int] as int].duration)
        } else {
            None
        }
    }

    /// The player with one more card.
    pub open spec fn with_card(self, card: Card) -> PlayerModel {
        PlayerModel { cards: self.cards.push(card), ..self }
    }
}

impl Default for PlayerData {
    fn default() -> (player: Self)
        ensures
            player@ == PlayerModel::fresh(),
            player@.wf(),
    {
        let player = Self {
            energy: INITIAL_ENERGY,
            cost_info: COST_INCREASE_ROUND,
            current_cost: 0,
            redeem_info: [0;8],
            objects: Vec::new(),
            local: Attributes::default_local(),
            cards: default_cards(),
        };
        assert(player@ =~= PlayerModel::fresh());
        player
    }
}

impl PlayerData {
    /// The player's resources as an array.
    pub fn holdings(&self) -> (local: [i64; 8])
        requires
            self@.local.len() == 8,
        ensures
            local@ == self@.local,
    {
        let mut local: [i64; 8] = [0i64;8];
        let mut i: usize = 0;
        while i < 8
            invariant
                i <= 8,
                self.local@.len() == 8,
                forall|j: int| 0 <= j < i ==> local[j] == self.local@[j],
            decreases 8 - i,
        {
            local[i] = self.local.0[i];
            i += 1;
        }
        assert(local@ =~= self.local@);
        local
    }

    /// Whether a card can be drawn for the player from the second random word.
    pub fn can_generate(&self, rand: &[u64; 4]) -> (ok: bool)
        ensures
            ok == drawable(self@.local, rand[1]),
    {
        if self.local.0.len() != 8 {
            return false;
        }
        let local = self.holdings();
        can_draw(&local, rand[1])
    }

    /// Draws a card from the second random word and adds it to the player's cards.
    pub fn generate_card(&mut self, rand: &[u64; 4])
        requires
            old(self)@.wf(),
            drawable(old(self)@.local, rand[1]),
        ensures
            final(self)@ == old(self)@.with_card(generated_card(old(self)@.local, rand[1])),
            final(self)@.wf(),
    {
        let local = self.holdings();
        let new_card = random_modifier(local, rand[1]);
        self.cards.push(new_card);
        assert(self@ =~= old(self)@.with_card(generated_card(old(self)@.local, rand[1])));
    }

    /// Pays for one action from the treasure.
    ///
    /// Fails, changing nothing, where the treasure does not cover the cost.
    /// Otherwise the cost clock runs down, the cost rises when it runs out,
    /// and the player gains 20 energy, up to 65535.
    pub fn pay_cost(&mut self) -> (r: Result<(), u32>)
        requires
            old(self)@.wf(),
            old(self)@.treasure() >= old(self)@.current_cost ==> old(self)@.next_cost()
                <= u32::MAX,
        ensures
            r.is_ok() <==> old(self)@.treasure() >= old(self)@.current_cost,
            r.is_ok() ==> final(self)@ == old(self)@.paid(),
            r matches Err(e) ==> e == ERROR_NOT_ENOUGH_BALANCE && final(self)@ == old(self)@,
            final(self)@.wf(),
    {
        let paid = self.cost_balance(self.current_cost as i64);
        if paid.is_err() {
            return paid;
        }
        self.cost_info -= 1;
        if self.cost_info == 0 {
            self.cost_info = COST_INCREASE_ROUND;
            if self.current_cost != 0 {
                self.current_cost = self.current_cost * 2
            } else {
                self.current_cost = 1;
            }
        }
        let energy = (self.energy as u32) + 20;
        if energy > 0xffff {
            self.energy = 0xffff
        } else {
            self.energy += 20;
        }
        assert(self@ =~= old(self)@.paid());
        Ok(())
    }

    /// Takes `b` from the treasure; a negative `b` adds to it.
    ///
    /// Fails, changing nothing, where the treasure is less than `b`.
    pub fn cost_balance(&mut self, b: i64) -> (r: Result<(), u32>)
        requires
            old(self)@.local.len() == 8,
            old(self)@.treasure() - b <= i64::MAX,
        ensures
            r.is_ok() <==> old(self)@.treasure() >= b,
            r.is_ok() ==> final(self)@ == old(self)@.charged(b as int),
            r matches Err(e) ==> e == ERROR_NOT_ENOUGH_BALANCE && final(self)@ == old(self)@,
            old(self)@.wf() ==> final(self)@.wf(),
    {
        let treasure = self.local.0[TREASURE];
        if treasure >= b {
            self.local.0[TREASURE] = treasure - b;
            assert(self@ =~= old(self)@.charged(b as int));
            Ok(())
        } else {
            Err(ERROR_NOT_ENOUGH_BALANCE)
        }
    }

    /// Raises the level of automaton `object_index` and its feature `index`
    /// by one each.
    ///
    /// The level stays below 129, except where the level itself is the
    /// chosen feature of an automaton at level 127.
    pub fn upgrade_object(&mut self, object_index: usize, index: u64)
        requires
            old(self)@.can_upgrade(object_index as int, index as int),
        ensures
            final(self)@ == old(self)@.upgraded(object_index as int, index as int),
            !(index == 0 && old(self)@.objects[object_index as int].attributes[0] == 127)
                ==> final(self)@.objects[object_index as int].attributes[0] < 129,
            final(self)@.objects[object_index as int].attributes[0] <= 129,
            old(self)@.wf() ==> final(self)@.wf(),
    {
        self.objects[object_index].attributes[0] += 1;
        self.objects[object_index].attributes[index as usize] += 1;
        proof {
            let before = old(self)@.objects[object_index as int];
            let after = self@.objects[object_index as int];
            assert(after.attributes =~= upgraded_attributes(before.attributes, index as int));
            assert(self@ =~= old(self)@.upgraded(object_index as int, index as int));
        }
    }

    /// Fires automaton `object_index` at tick `counter` and says after how
    /// many ticks it fires again, or nothing where it halted.
    pub fn apply_object_card(&mut self, object_index: usize, counter: u64) -> (delay: Option<u64>)
        requires
            old(self)@.can_fire(object_index as int),
        ensures
            final(self)@ == old(self)@.fired(object_index as int, counter),
            delay == old(self)@.fired_delay(object_index as int),
            old(self)@.wf() && counter < TICK_LIMIT ==> final(self)@.wf(),
            final(self)@.energy == old(self)@.energy,
    {
        let object = self.objects[object_index];
        let current_index = object.get_modifier_index() as usize;
        if object.is_restarting() {
            let next_index: usize = 0;
            let duration = self.cards[object.cards[next_index] as usize].duration;
            self.objects[object_index].start_new_modifier(next_index, counter);
            assert(self@ =~= old(self)@.fired(object_index as int, counter));
            Some(duration)
        } else {
            let card = self.cards[object.cards[current_index] as usize];
            let applied = self.apply_modifier(&card);
            if applied {
                let next_index = (current_index + 1) % 8;
                let duration = self.cards[object.cards[next_index] as usize].duration;
                self.objects[object_index].start_new_modifier(next_index, counter);
                assert(self@ =~= old(self)@.fired(object_index as int, counter));
                Some(duration)
            } else {
                self.objects[object_index].halt();
                assert(self@ =~= old(self)@.fired(object_index as int, counter));
                None
            }
        }
    }

    /// Whether the player is well-formed.
    pub fn well_formed(&self) -> (ok: bool)
        ensures
            ok == self@.wf(),
    {
        if self.cost_info < 1 || self.local.0.len() != 8 {
            return false;
        }
        let mut i: usize = 0;
        while i < 8
            invariant
                i <= 8,
                self.local@.len() == 8,
                forall|j: int| 0 <= j < i ==> #[trigger] self.local@[j] >= 0,
            decreases 8 - i,
        {
            if self.local.0[i] < 0 {
                return false;
            }
            i += 1;
        }
        let mut i: usize = 0;
        while i < self.objects.len()
            invariant
                i <= self.objects@.len(),
                forall|j: int| 0 <= j < i ==> (#[trigger] self.objects@[j]).wf(),
            decreases self.objects@.len() - i,
        {
            if !self.objects[i].well_formed() {
                assert(!self@.objects[i as int].wf());
                return false;
            }
            i += 1;
        }
        let mut i: usize = 0;
        while i < self.cards.len()
            invariant
                i <= self.cards@.len(),
                forall|j: int| 0 <= j < i ==> (#[trigger] self.cards@[j]).duration >= 1,
            decreases self.cards@.len() - i,
        {
            if self.cards[i].duration < 1 {
                assert(self@.cards[i as int].duration < 1);
                return false;
            }
            i += 1;
        }
        true
    }

    /// Whether firing automaton `object_index` is defined.
    pub fn can_fire(&self, object_index: usize) -> (ok: bool)
        ensures
            ok == self@.can_fire(object_index as int),
    {
        if self.local.0.len() != 8 || object_index >= self.objects.len() {
            return false;
        }
        let object = self.objects[object_index];
        if object.is_restarting() {
            return (object.cards[0] as usize) < self.cards.len();
        }
        let pointer = object.get_modifier_index() as usize;
        if pointer >= PROGRAM_SIZE {
            return false;
        }
        let owned = object.cards[pointer] as usize;
        if owned >= self.cards.len() {
            return false;
        }
        let card = self.cards[owned];
        let ghost delta = card_delta(card);
        let mut applies = true;
        let mut i: usize = 0;
        while i < 8
            invariant
                i <= 8,
                self.local@.len() == 8,
                delta == card_delta(card),
                self@.can_fire(object_index as int) ==> sums_fit(self.local@, delta),
                forall|j: int|
                    0 <= j < i ==> i64::MIN <= (#[trigger] self.local@[j]) + delta[j] <= i64::MAX,
                applies == forall|j: int| 0 <= j < i ==> (#[trigger] self.local@[j]) + delta[j] >= 0,
            decreases 8 - i,
        {
            let sum = self.local.0[i] as i128 + card.attributes[i] as i128;
            if sum > i64::MAX as i128 || sum < i64::MIN as i128 {
                assert(!sums_fit(self.local@, delta)) by {
                    if sums_fit(self.local@, delta) {
                        assert(i64::MIN <= self.local@[i as int] + delta[i as int] <= i64::MAX);
                    }
                }
                return false;
            }
            if sum < 0 {
                applies = false;
            }
            i += 1;
        }
        assert(sums_fit(self.local@, delta));
        assert(applies == applicable(self.local@, delta));
        if applies {
            (object.cards[(pointer + 1) % 8] as usize) < self.cards.len()
        } else {
            true
        }
    }

    /// Whether giving automaton `object_index` the program `program` is defined.
    pub fn can_restart(&self, object_index: usize, program: &[u8; 8]) -> (ok: bool)
        ensures
            ok == self@.can_restart(object_index as int, *program),
    {
        if object_index >= self.objects.len() {
            return false;
        }
        let object = self.objects[object_index];
        if object.is_halted() {
            let pointer = object.get_modifier_index() as usize;
            pointer < PROGRAM_SIZE && (program[pointer] as usize) < self.cards.len()
        } else {
            true
        }
    }

    /// Whether automaton `object_index` can be upgraded in `feature`.
    pub fn can_upgrade(&self, object_index: usize, feature: u64) -> (ok: bool)
        ensures
            ok == self@.can_upgrade(object_index as int, feature as int),
    {
        if object_index >= self.objects.len() || feature >= 4 {
            return false;
        }
        let object = self.objects[object_index];
        object.attributes[0] < LEVEL_LIMIT && object.attributes[feature as usize] < u16::MAX
    }

    /// Gives automaton `object_index` the program `data` at tick `counter`.
    ///
    /// A halted automaton runs again from the start of the program, and the
    /// result is the number of ticks until it fires: the duration of the new
    /// program's card at the position where it halted. Any other automaton
    /// is marked as restart-pending, and the result is nothing.
    pub fn restart_object_card(
        &mut self,
        object_index: usize,
        data: [u8; 8],
        counter: u64,
    ) -> (delay: Option<u64>)
        requires
            old(self)@.can_restart(object_index as int, data),
        ensures
            final(self)@ == old(self)@.restarted(object_index as int, data, counter),
            delay == old(self)@.restart_delay(object_index as int, data),
            old(self)@.wf() && counter < TICK_LIMIT ==> final(self)@.wf(),
    {
        let halted = self.objects[object_index].is_halted();
        if halted {
            self.objects[object_index].reset_modifier(data);
            let modifier_index = self.objects[object_index].get_modifier_index();
            let duration = self.cards[data[modifier_index as usize] as usize].duration;
            self.objects[object_index].restart(counter);
            assert(self@ =~= old(self)@.restarted(object_index as int, data, counter));
            Some(duration)
        } else {
            self.objects[object_index].reset_modifier(data);
            self.objects[object_index].reset_halt_bit_to_restart();
            assert(self@ =~= old(self)@.restarted(object_index as int, data, counter));
            None
        }
    }

    /// Adds the card's deltas to the local resources, unless one of them
    /// would become negative: then nothing changes and the result is `false`.
    pub fn apply_modifier(&mut self, m: &Card) -> (ok: bool)
        requires
            sums_fit(old(self)@.local, card_delta(*m)),
        ensures
            ok == applicable(old(self)@.local, card_delta(*m)),
            ok ==> final(self)@ == (PlayerModel {
                local: applied(old(self)@.local, card_delta(*m)),
                ..old(self)@
            }),
            !ok ==> final(self)@ == old(self)@,
            ok ==> forall|i: int|
                0 <= i < final(self)@.local.len() && i < 8 ==> final(self)@.local[i] >= 0,
    {
        let mut delta: Vec<i64> = Vec::new();
        let mut i: usize = 0;
        while i < 8
            invariant
                i <= 8,
                delta@ == card_delta(*m).subrange(0, i as int),
            decreases 8 - i,
        {
            delta.push(m.attributes[i] as i64);
            assert(delta@ =~= card_delta(*m).subrange(0, i + 1));
            i += 1;
        }
        assert(delta@ =~= card_delta(*m));
        let delta = Attributes(delta);
        let ok = self.local.apply_modifier(&delta);
        proof {
            if ok {
                assert(self@ =~= (PlayerModel {
                    local: applied(old(self)@.local, card_delta(*m)),
                    ..old(self)@
                }));
            } else {
                assert(self@ =~= old(self)@);
            }
        }
        ok
    }
}


/// First word of a player's data: energy in bits 48 to 63, the cost clock in
/// bits 32 to 47, the current cost below.
pub open spec fn header_word(energy: u16, cost_info: u16, current_cost: u32) -> u64 {
    ((energy as u64) << 48) | ((cost_info as u64) << 32) | (current_cost as u64)
}

/// The words of the automata, one after the other.
pub open spec fn objects_words(objects: Seq<Object>) -> Seq<u64>
    decreases objects.len(),
{
    if objects.len() == 0 {
        Seq::empty()
    } else {
        objects_words(objects.drop_last()) + objects.last().words()
    }
}

/// The words of the cards, one after the other.
pub open spec fn cards_words(cards: Seq<Card>) -> Seq<u64>
    decreases cards.len(),
{
    if cards.len() == 0 {
        Seq::empty()
    } else {
        cards_words(cards.drop_last()) + cards.last().words()
    }
}

/// The bit patterns of the resource amounts.
pub open spec fn local_words(local: Seq<i64>) -> Seq<u64> {
    Seq::new(local.len(), |i: int| unsigned_word(local[i]))
}

impl PlayerModel {
    /// The counts of automata, resources and cards each fit a word.
    pub open spec fn storable(self) -> bool {
        &&& self.redeem_info.len() == 8
        &&& self.objects.len() <= u64::MAX
        &&& self.local.len() <= u64::MAX
        &&& self.cards.len() <= u64::MAX
    }

    /// The storage words of a player: the header, the redeemed bounties as
    /// little-endian bytes, then the automata, the resources and the cards,
    /// each list after its length.
    pub open spec fn words(self) -> Seq<u64> {
        seq![
            header_word(self.energy, self.cost_info, self.current_cost),
            word_of(self.redeem_info),
            self.objects.len() as u64,
        ] + objects_words(self.objects) + seq![self.local.len() as u64] + local_words(self.local)
            + seq![self.cards.len() as u64] + cards_words(self.cards)
    }

    /// Where the player's words end that begin at `start` of `data`, where
    /// `data` holds all the words that its three length words announce.
    pub open spec fn span(data: Seq<u64>, start: int) -> Option<int> {
        if start + 3 > data.len() {
            None
        } else {
            let local_at = start + 3 + 3 * data[start + 2];
            if local_at + 1 > data.len() {
                None
            } else {
                let cards_at = local_at + 1 + data[local_at];
                if cards_at + 1 > data.len() {
                    None
                } else {
                    let end = cards_at + 1 + 2 * data[cards_at];
                    if end > data.len() {
                        None
                    } else {
                        Some(end)
                    }
                }
            }
        }
    }
}

proof fn lemma_header(h: u64, energy: u16, cost_info: u16, current_cost: u32)
    by (bit_vector)
    ensures
        ((((h >> 48) & 0xffff) as u16 as u64) << 48) | ((((h >> 32) & 0xffff) as u16 as u64) << 32)
            | ((h & 0xffffffff) as u32 as u64) == h,
        ({
            let w = ((energy as u64) << 48) | ((cost_info as u64) << 32) | (current_cost as u64);
            &&& ((w >> 48) & 0xffff) as u16 == energy
            &&& ((w >> 32) & 0xffff) as u16 == cost_info
            &&& (w & 0xffffffff) as u32 == current_cost
        }),
{
}

/// The automata's words take three places each.
pub proof fn lemma_objects_words_len(objects: Seq<Object>)
    ensures
        objects_words(objects).len() == 3 * objects.len(),
    decreases objects.len(),
{
    if objects.len() > 0 {
        lemma_objects_words_len(objects.drop_last());
    }
}

/// The cards' words take two places each.
pub proof fn lemma_cards_words_len(cards: Seq<Card>)
    ensures
        cards_words(cards).len() == 2 * cards.len(),
    decreases cards.len(),
{
    if cards.len() > 0 {
        lemma_cards_words_len(cards.drop_last());
    }
}

/// Automaton `i` is found at its place among the automata's words.
pub proof fn lemma_objects_words_at(objects: Seq<Object>, i: int)
    requires
        0 <= i < objects.len(),
    ensures
        objects_words(objects).len() == 3 * objects.len(),
        objects_words(objects).subrange(3 * i, 3 * i + 3) == objects[i].words(),
    decreases objects.len(),
{
    lemma_objects_words_len(objects);
    lemma_objects_words_len(objects.drop_last());
    if i == objects.len() - 1 {
        assert(objects_words(objects).subrange(3 * i, 3 * i + 3) =~= objects[i].words());
    } else {
        lemma_objects_words_at(objects.drop_last(), i);
        assert(objects_words(objects).subrange(3 * i, 3 * i + 3) =~= objects_words(
            objects.drop_last(),
        ).subrange(3 * i, 3 * i + 3));
    }
}

/// Card `i` is found at its place among the cards' words.
pub proof fn lemma_cards_words_at(cards: Seq<Card>, i: int)
    requires
        0 <= i < cards.len(),
    ensures
        cards_words(cards).len() == 2 * cards.len(),
        cards_words(cards).subrange(2 * i, 2 * i + 2) == cards[i].words(),
    decreases cards.len(),
{
    lemma_cards_words_len(cards);
    lemma_cards_words_len(cards.drop_last());
    if i == cards.len() - 1 {
        assert(cards_words(cards).subrange(2 * i, 2 * i + 2) =~= cards[i].words());
    } else {
        lemma_cards_words_at(cards.drop_last(), i);
        assert(cards_words(cards).subrange(2 * i, 2 * i + 2) =~= cards_words(
            cards.drop_last(),
        ).subrange(2 * i, 2 * i + 2));
    }
}

/// The words of a player that can be stored end where its length words say.
pub proof fn lemma_player_span(player: PlayerModel, tail: Seq<u64>)
    requires
        player.storable(),
    ensures
        PlayerModel::span(player.words() + tail, 0) == Some(player.words().len() as int),
{
    lemma_objects_words_len(player.objects);
    lemma_cards_words_len(player.cards);
    let data = player.words() + tail;
    let local_at: int = 3 + 3 * (player.objects.len() as int);
    let cards_at: int = local_at + 1 + player.local.len();
    assert(data[2] == player.objects.len());
    assert(data[local_at] == player.local.len());
    assert(data[cards_at] == player.cards.len());
}

/// Two players that can be stored and have the same storage words hold the same.
pub proof fn lemma_player_words_injective(a: PlayerModel, b: PlayerModel)
    requires
        a.storable(),
        b.storable(),
        a.words() == b.words(),
    ensures
        a == b,
{
    lemma_objects_words_len(a.objects);
    lemma_cards_words_len(a.cards);
    lemma_objects_words_len(b.objects);
    lemma_cards_words_len(b.cards);
    let w = a.words();
    assert(w[0] == header_word(a.energy, a.cost_info, a.current_cost));
    assert(b.words()[0] == header_word(b.energy, b.cost_info, b.current_cost));
    lemma_header(0, a.energy, a.cost_info, a.current_cost);
    lemma_header(0, b.energy, b.cost_info, b.current_cost);
    assert(w[1] == word_of(a.redeem_info));
    assert(b.words()[1] == word_of(b.redeem_info));
    lemma_bytes_of_word_of(a.redeem_info);
    lemma_bytes_of_word_of(b.redeem_info);
    assert(a.redeem_info =~= b.redeem_info);
    assert(w[2] == a.objects.len());
    assert(b.words()[2] == b.objects.len());
    let n = a.objects.len() as int;
    assert(w.subrange(3, 3 + 3 * n) =~= objects_words(a.objects));
    assert(b.words().subrange(3, 3 + 3 * n) =~= objects_words(b.objects));
    assert forall|i: int| 0 <= i < n implies a.objects[i] == b.objects[i] by {
        lemma_objects_words_at(a.objects, i);
        lemma_objects_words_at(b.objects, i);
        lemma_object_words_injective(a.objects[i], b.objects[i]);
    }
    assert(a.objects =~= b.objects);
    let local_at = 3 + 3 * n;
    assert(w[local_at] == a.local.len());
    assert(b.words()[local_at] == b.local.len());
    let m = a.local.len() as int;
    assert forall|i: int| 0 <= i < m implies a.local[i] == b.local[i] by {
        assert(w[local_at + 1 + i] == local_words(a.local)[i]);
        assert(b.words()[local_at + 1 + i] == local_words(b.local)[i]);
        lemma_signed_word_round_trip(0, a.local[i]);
        lemma_signed_word_round_trip(0, b.local[i]);
    }
    assert(a.local =~= b.local);
    let cards_at = local_at + 1 + m;
    assert(w[cards_at] == a.cards.len());
    assert(b.words()[cards_at] == b.cards.len());
    let k = a.cards.len() as int;
    assert(w.subrange(cards_at + 1, cards_at + 1 + 2 * k) =~= cards_words(a.cards));
    assert(b.words().subrange(cards_at + 1, cards_at + 1 + 2 * k) =~= cards_words(b.cards));
    assert forall|i: int| 0 <= i < k implies a.cards[i] == b.cards[i] by {
        lemma_cards_words_at(a.cards, i);
        lemma_cards_words_at(b.cards, i);
        lemma_card_words_injective(a.cards[i], b.cards[i]);
    }
    assert(a.cards =~= b.cards);
    assert(a =~= b);
}

/// Storing a player and reading the words back gives the same player: where
/// `read` is a player whose words are those that `player`'s own words, with
/// anything after them, hold up to the end that their length words announce.
pub proof fn lemma_player_round_trip(player: PlayerModel, tail: Seq<u64>, read: PlayerModel)
    requires
        player.storable(),
        read.storable(),
        PlayerModel::span(player.words() + tail, 0) matches Some(end) && read.words() == (
        player.words() + tail).subrange(0, end),
    ensures
        read == player,
{
    lemma_player_span(player, tail);
    assert((player.words() + tail).subrange(0, player.words().len() as int) =~= player.words());
    lemma_player_words_injective(player, read);
}

impl PlayerData {
    /// Appends the player's words to `data`.
    pub fn to_data(&self, data: &mut Vec<u64>)
        ensures
            final(data)@ == old(data)@ + self@.words(),
    {
        let ghost head = seq![
            header_word(self.energy, self.cost_info, self.current_cost),
            word_of(self.redeem_info@),
            self.objects@.len() as u64,
        ];
        data.push(
            ((self.energy as u64) << 48) | ((self.cost_info as u64) << 32) | (
            self.current_cost as u64),
        );
        data.push(bytes_to_word(&self.redeem_info));
        data.push(self.objects.len() as u64);
        assert(data@ =~= old(data)@ + head);
        let mut i: usize = 0;
        while i < self.objects.len()
            invariant
                i <= self.objects@.len(),
                data@ == old(data)@ + head + objects_words(self.objects@.subrange(0, i as int)),
            decreases self.objects@.len() - i,
        {
            self.objects[i].to_data(data);
            proof {
                let upto = self.objects@.subrange(0, i + 1);
                assert(upto.drop_last() =~= self.objects@.subrange(0, i as int));
                assert(data@ =~= old(data)@ + head + objects_words(upto));
            }
            i += 1;
        }
        assert(self.objects@.subrange(0, i as int) =~= self.objects@);
        let ghost with_objects = old(data)@ + head + objects_words(self.objects@);
        data.push(self.local.0.len() as u64);
        let mut i: usize = 0;
        while i < self.local.0.len()
            invariant
                i <= self.local@.len(),
                data@ == with_objects + seq![self.local@.len() as u64] + local_words(
                    self.local@,
                ).subrange(0, i as int),
            decreases self.local@.len() - i,
        {
            data.push(word_to_unsigned(self.local.0[i]));
            assert(data@ =~= with_objects + seq![self.local@.len() as u64] + local_words(
                self.local@,
            ).subrange(0, i + 1));
            i += 1;
        }
        assert(local_words(self.local@).subrange(0, i as int) =~= local_words(self.local@));
        let ghost with_local = with_objects + seq![self.local@.len() as u64] + local_words(
            self.local@,
        );
        data.push(self.cards.len() as u64);
        let mut i: usize = 0;
        while i < self.cards.len()
            invariant
                i <= self.cards@.len(),
                data@ == with_local + seq![self.cards@.len() as u64] + cards_words(
                    self.cards@.subrange(0, i as int),
                ),
            decreases self.cards@.len() - i,
        {
            self.cards[i].to_data(data);
            proof {
                let upto = self.cards@.subrange(0, i + 1);
                assert(upto.drop_last() =~= self.cards@.subrange(0, i as int));
                assert(data@ =~= with_local + seq![self.cards@.len() as u64] + cards_words(upto));
            }
            i += 1;
        }
        assert(self.cards@.subrange(0, i as int) =~= self.cards@);
        assert(data@ =~= old(data)@ + self@.words());
    }

    /// Reads a player from the words of `data` that begin at `start`.
    ///
    /// Succeeds exactly when `data` holds every word that the three length
    /// words announce; the player is then the one whose words they are, and
    /// the position after them is returned with it.
    pub fn from_data(data: &Vec<u64>, start: usize) -> (r: Option<(Self, usize)>)
        ensures
            r.is_some() <==> PlayerModel::span(data@, start as int).is_some(),
            r matches Some((player, next)) ==> {
                &&& PlayerModel::span(data@, start as int) == Some(next as int)
                &&& player@.words() == data@.subrange(start as int, next as int)
                &&& player@.storable()
            },
    {
        let len = data.len();
        if len < 3 || start > len - 3 {
            return None;
        }
        let header = data[start];
        let redeem = data[start + 1];
        let objects_size = data[start + 2];
        let objects_at = start + 3;
        if objects_size > ((len - objects_at) / 3) as u64 {
            return None;
        }
        let local_at = objects_at + 3 * (objects_size as usize);
        if local_at >= len {
            return None;
        }
        let mut objects: Vec<Object> = Vec::new();
        let mut pos = objects_at;
        let mut i: usize = 0;
        while i < objects_size as usize
            invariant
                i <= objects_size,
                pos == objects_at + 3 * i,
                local_at == objects_at + 3 * objects_size,
                local_at < len,
                len == data@.len(),
                objects@.len() == i,
                objects_words(objects@) == data@.subrange(objects_at as int, pos as int),
            decreases objects_size - i,
        {
            let read = Object::from_data(data, pos);
            let (object, next) = read.unwrap();
            let ghost before = objects@;
            objects.push(object);
            proof {
                assert(objects@.drop_last() =~= before);
                assert(objects_words(objects@) =~= data@.subrange(objects_at as int, next as int));
            }
            pos = next;
            i += 1;
        }
        let local_size = data[local_at];
        if local_size >= (len - local_at - 1) as u64 {
            return None;
        }
        let cards_at = local_at + 1 + local_size as usize;
        let mut local: Vec<i64> = Vec::new();
        let mut i: usize = 0;
        while i < local_size as usize
            invariant
                i <= local_size,
                cards_at == local_at + 1 + local_size,
                cards_at < len,
                len == data@.len(),
                local@.len() == i,
                local_words(local@) == data@.subrange(local_at + 1, local_at + 1 + i),
            decreases local_size - i,
        {
            let ghost before = local@;
            local.push(word_to_signed(data[local_at + 1 + i]));
            proof {
                lemma_signed_word_round_trip(data@[local_at + 1 + i], 0);
                assert(local_words(local@) =~= data@.subrange(local_at + 1, local_at + 1 + i + 1));
            }
            i += 1;
        }
        let card_size = data[cards_at];
        if card_size > ((len - cards_at - 1) / 2) as u64 {
            return None;
        }
        let end = cards_at + 1 + 2 * (card_size as usize);
        let mut cards: Vec<Card> = Vec::new();
        let mut pos = cards_at + 1;
        let mut i: usize = 0;
        while i < card_size as usize
            invariant
                i <= card_size,
                pos == cards_at + 1 + 2 * i,
                end == cards_at + 1 + 2 * card_size,
                end <= len,
                len == data@.len(),
                cards@.len() == i,
                cards_words(cards@) == data@.subrange(cards_at + 1, pos as int),
            decreases card_size - i,
        {
            let read = Card::from_data(data, pos);
            let (card, next) = read.unwrap();
            let ghost before = cards@;
            cards.push(card);
            proof {
                assert(cards@.drop_last() =~= before);
                assert(cards_words(cards@) =~= data@.subrange(cards_at + 1, next as int));
            }
            pos = next;
            i += 1;
        }
        let player = PlayerData {
            energy: ((header >> 48) & 0xffff) as u16,
            cost_info: ((header >> 32) & 0xffff) as u16,
            redeem_info: word_to_bytes(redeem),
            current_cost: (header & 0xffffffff) as u32,
            objects,
            local: Attributes(local),
            cards,
        };
        proof {
            lemma_header(header, 0, 0, 0);
            lemma_word_of_bytes_of(redeem);
            assert(player@.words() =~= data@.subrange(start as int, end as int));
        }
        Some((player, end))
    }
}

} // verus!
