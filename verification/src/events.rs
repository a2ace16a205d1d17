//! Events: which automaton of which player fires, and how many ticks after
//! the event before it in the queue.

use crate::error::Abort;
use crate::object::{
    lemma_running_at, lemma_with_status, with_status, Object, STATUS_HALTED, TICK_LIMIT,
};
use crate::player::{PlayerData, PlayerModel};
use crate::registry::{
    id_of, lemma_position_found, position_of, records_wf, PlayerRecord, Registry,
};
use vstd::prelude::*;

verus! {

/// Number of storage words that one event occupies.
pub const EVENT_WORDS: usize = 3;

/// A pending firing of automaton `object_index` of the player `owner`.
#[derive(Clone, Copy, Debug, PartialEq, Eq)]
pub struct Event {
    pub owner: [u64; 2],
    pub object_index: usize,
    /// Ticks after the event before this one in the queue.
    pub delta: u64,
}

/// Third word of an event: the automaton's index above bit 32, the delay below.
pub open spec fn target_word(object_index: u64, delta: u64) -> u64 {
    (object_index << 32) | delta
}

proof fn lemma_target_word(w: u64, object_index: u64, delta: u64)
    by (bit_vector)
    ensures
        ((w >> 32) << 32) | (w & 0xffffffff) == w,
        w >> 32 <= 0xffffffff,
        w & 0xffffffff <= 0xffffffff,
        object_index <= 0xffffffff && delta <= 0xffffffff ==> ((object_index << 32) | delta) >> 32
            == object_index && ((object_index << 32) | delta) & 0xffffffff == delta,
{
}

/// The event whose three storage words are `words`.
pub open spec fn event_of(words: Seq<u64>) -> Event {
    Event {
        owner: [words[0], words[1]],
        object_index: (words[2] >> 32) as usize,
        delta: words[2] & 0xffffffff,
    }
}

impl PlayerModel {
    /// Handling an event for automaton `object_index` is defined: the
    /// automaton exists and, unless the player is out of energy, it can fire.
    pub open spec fn can_handle(self, object_index: int) -> bool {
        if self.energy == 0 {
            0 <= object_index < self.objects.len()
        } else {
            self.can_fire(object_index)
        }
    }

    /// The player after an event for automaton `object_index` was handled at
    /// tick `counter`.
    ///
    /// Without energy the automaton halts. Otherwise it fires, and where it
    /// goes on from the start of its program the player loses one energy.
    pub open spec fn handled(self, object_index: int, counter: u64) -> PlayerModel {
        if self.energy == 0 {
            let object = self.objects[object_index];
            self.with_object(
                object_index,
                Object {
                    modifier_info: with_status(object.modifier_info, STATUS_HALTED),
                    ..object
                },
            )
        } else {
            let fired = self.fired(object_index, counter);
            if self.fired_delay(object_index) is Some && fired.objects[object_index].pointer()
                == 0 {
                PlayerModel { energy: (self.energy - 1) as u16, ..fired }
            } else {
                fired
            }
        }
    }

    /// Ticks until the automaton fires again after the event was handled, or
    /// nothing where it halted.
    pub open spec fn handled_delay(self, object_index: int) -> Option<u64> {
        if self.energy == 0 {
            None
        } else {
            self.fired_delay(object_index)
        }
    }
}

impl Event {
    /// The three storage words of an event.
    pub open spec fn words(&self) -> Seq<u64> {
        seq![self.owner[0], self.owner[1], target_word(self.object_index as u64, self.delta)]
    }

    /// Index and delay each fit the 32 bits that the third word has for them.
    pub open spec fn storable(&self) -> bool {
        self.object_index <= 0xffffffff && self.delta <= 0xffffffff
    }

    /// The event that follows this one after `delay` ticks, if any.
    pub open spec fn successor(&self, delay: Option<u64>) -> Option<Event> {
        match delay {
            Some(delta) => Some(
                Event { owner: self.owner, object_index: self.object_index, delta },
            ),
            None => None,
        }
    }

    /// Appends the event's three words to `buf`.
    pub fn to_data(&self, buf: &mut Vec<u64>)
        ensures
            final(buf)@ == old(buf)@ + self.words(),
    {
        buf.push(self.owner[0]);
        buf.push(self.owner[1]);
        buf.push(((self.object_index as u64) << 32) | self.delta);
        assert(buf@ =~= old(buf)@ + self.words());
    }

    /// Reads an event from the three words of `data` that begin at `start`.
    ///
    /// Succeeds exactly when the three words are there; the event is then the
    /// one whose words they are, with index and delay below 2^32, and the
    /// position after them is returned with it.
    pub fn from_data(data: &Vec<u64>, start: usize) -> (r: Option<(Self, usize)>)
        ensures
            r.is_some() <==> start + 3 <= data@.len(),
            r matches Some((event, next)) ==> {
                &&& next == start + 3
                &&& event.words() == data@.subrange(start as int, start + 3)
                &&& event == event_of(data@.subrange(start as int, start + 3))
                &&& event.storable()
            },
    {
        if data.len() < 3 || start > data.len() - 3 {
            return None;
        }
        let f = data[start + 2];
        proof {
            lemma_target_word(f, 0, 0);
        }
        let event = Event {
            owner: [data[start], data[start + 1]],
            object_index: (f >> 32) as usize,
            delta: f & 0xffffffff,
        };
        assert(event.words() =~= data@.subrange(start as int, start + 3));
        assert(event.owner =~= event_of(data@.subrange(start as int, start + 3)).owner);
        Some((event, start + 3))
    }

    /// Number of storage words that one event occupies.
    pub fn u64size() -> (n: usize)
        ensures
            n == EVENT_WORDS,
    {
        3
    }

    /// Ticks after the event before this one in the queue.
    pub fn get_delta(&self) -> (delta: u64)
        ensures
            delta == self.delta,
    {
        self.delta
    }

    /// Brings the event `d` ticks closer.
    pub fn progress(&mut self, d: u64)
        requires
            d <= old(self).delta,
        ensures
            final(self).delta == old(self).delta - d,
            final(self).owner == old(self).owner,
            final(self).object_index == old(self).object_index,
    {
        self.delta -= d;
    }

    /// Handles the event at tick `counter` on its owner's holdings, and
    /// returns the event that follows it, if any.
    ///
    /// Without energy the automaton halts: no card is applied and no event
    /// follows. The player's energy never grows.
    pub fn handle(&self, counter: u64, player: &mut PlayerData) -> (next: Option<Event>)
        requires
            old(player)@.can_handle(self.object_index as int),
        ensures
            final(player)@ == old(player)@.handled(self.object_index as int, counter),
            next == self.successor(old(player)@.handled_delay(self.object_index as int)),
            final(player)@.energy <= old(player)@.energy,
            old(player)@.energy == 0 ==> {
                &&& next is None
                &&& final(player)@.local == old(player)@.local
                &&& final(player)@.cards == old(player)@.cards
                &&& final(player)@.objects[self.object_index as int].status() == STATUS_HALTED
                &&& final(player)@.objects[self.object_index as int].pointer() == old(
                    player,
                )@.objects[self.object_index as int].pointer()
            },
            old(player)@.wf() && counter < TICK_LIMIT ==> final(player)@.wf(),
    {
        let object_index = self.object_index;
        let m = if player.energy == 0 {
            proof {
                lemma_with_status(
                    player.objects@[object_index as int].modifier_info,
                    STATUS_HALTED,
                );
            }
            player.objects[object_index].halt();
            assert(player@ =~= old(player)@.handled(object_index as int, counter));
            None
        } else {
            player.apply_object_card(object_index, counter)
        };
        match m {
            Some(delta) => {
                if player.objects[object_index].get_modifier_index() == 0 {
                    player.energy -= 1;
                }
                assert(player@ =~= old(player)@.handled(object_index as int, counter));
                Some(Event { owner: self.owner, object_index, delta })
            },
            None => None,
        }
    }
}

/// Reading the words of an event that can be stored gives the event back.
pub proof fn lemma_event_of_words(event: Event)
    requires
        event.storable(),
    ensures
        event_of(event.words()) == event,
{
    lemma_target_word(0, event.object_index as u64, event.delta);
    assert(event_of(event.words()).owner =~= event.owner);
}

/// Storing an event and reading the words back gives the same event, where
/// index and delay fit their 32 bits: the event that the three words hold
/// that `event`'s own words, with anything after them, begin with.
pub proof fn lemma_event_round_trip(event: Event, tail: Seq<u64>)
    requires
        event.storable(),
    ensures
        event_of((event.words() + tail).subrange(0, 3)) == event,
{
    assert((event.words() + tail).subrange(0, 3) =~= event.words());
    lemma_event_of_words(event);
}

/// Two events that can be stored and have the same storage words are the same event.
pub proof fn lemma_event_words_injective(a: Event, b: Event)
    requires
        a.storable(),
        b.storable(),
        a.words() == b.words(),
    ensures
        a == b,
{
    assert(a.owner[0] == a.words()[0] && a.owner[1] == a.words()[1]);
    assert(b.owner[0] == b.words()[0] && b.owner[1] == b.words()[1]);
    assert(a.owner =~= b.owner);
    assert(target_word(a.object_index as u64, a.delta) == a.words()[2]);
    assert(target_word(b.object_index as u64, b.delta) == b.words()[2]);
    lemma_target_word(0, a.object_index as u64, a.delta);
    lemma_target_word(0, b.object_index as u64, b.delta);
}


/// The event's owner is among `players`, and handling the event on the
/// owner's holdings is defined.
pub open spec fn can_fire_on(players: Seq<PlayerRecord>, event: Event) -> bool {
    position_of(players, id_of(event.owner)) matches Some(i) && players[i].data.can_handle(
        event.object_index as int,
    )
}

/// The players after `event` was handled at tick `counter`.
pub open spec fn players_after(players: Seq<PlayerRecord>, event: Event, counter: u64) -> Seq<
    PlayerRecord,
> {
    let i = position_of(players, id_of(event.owner)).unwrap();
    players.update(
        i,
        players[i].with_data(players[i].data.handled(event.object_index as int, counter)),
    )
}

/// The event that follows `event` once it was handled, if any.
pub open spec fn successor_after(players: Seq<PlayerRecord>, event: Event) -> Option<Event> {
    let i = position_of(players, id_of(event.owner)).unwrap();
    event.successor(players[i].data.handled_delay(event.object_index as int))
}

/// No player has more energy in `after` than in `before`, and the players
/// are the same.
pub open spec fn energy_kept(before: Seq<PlayerRecord>, after: Seq<PlayerRecord>) -> bool {
    &&& after.len() == before.len()
    &&& forall|i: int|
        0 <= i < before.len() ==> (#[trigger] after[i]).id == before[i].id
            && after[i].data.energy <= before[i].data.energy
}

/// A well-formed player's automaton fires again after at least one tick.
pub proof fn lemma_delay_positive(player: PlayerModel, object_index: int)
    requires
        player.wf(),
        player.can_handle(object_index),
    ensures
        player.handled_delay(object_index) matches Some(delay) ==> delay >= 1,
{
}

/// Handling an event leaves a well-formed player well-formed, as long as
/// the tick fits its 48 bits, and gives the player no energy.
pub proof fn lemma_handled_wf(player: PlayerModel, object_index: int, counter: u64)
    requires
        player.wf(),
        player.can_handle(object_index),
        counter < TICK_LIMIT,
    ensures
        player.handled(object_index, counter).wf(),
        player.handled(object_index, counter).energy <= player.energy,
{
    let object = player.objects[object_index];
    let after = player.handled(object_index, counter);
    assert(object.wf());
    lemma_with_status(object.modifier_info, STATUS_HALTED);
    lemma_running_at(0, counter);
    if object.pointer() < 8 {
        lemma_running_at(PlayerModel::next_position(object.pointer() as int) as u64, counter);
    }
    assert forall|i: int| 0 <= i < after.objects.len() implies (
    #[trigger] after.objects[i]).wf() by {
        if i != object_index {
            assert(player.objects[i].wf());
        }
    }
    assert forall|i: int| 0 <= i < 8 implies #[trigger] after.local[i] >= 0 by {
        assert(player.local[i] >= 0);
    }
    assert forall|i: int| 0 <= i < after.cards.len() implies (#[trigger] after.cards[i]).duration
        >= 1 by {
        assert(player.cards[i].duration >= 1);
    }
}

/// Handling an event on well-formed players leaves them well-formed, gives
/// none of them energy, and schedules its successor at least a tick later.
pub proof fn lemma_fire_keeps_wf(players: Seq<PlayerRecord>, event: Event, counter: u64)
    requires
        records_wf(players),
        can_fire_on(players, event),
        counter < TICK_LIMIT,
    ensures
        records_wf(players_after(players, event, counter)),
        energy_kept(players, players_after(players, event, counter)),
        successor_after(players, event) matches Some(next) ==> next.delta >= 1,
{
    let i = position_of(players, id_of(event.owner)).unwrap();
    let after = players_after(players, event, counter);
    lemma_position_found(players, id_of(event.owner), 0);
    assert(players[i].data.wf());
    lemma_handled_wf(players[i].data, event.object_index as int, counter);
    lemma_delay_positive(players[i].data, event.object_index as int);
    assert forall|j: int| 0 <= j < after.len() implies (#[trigger] after[j]).data.wf() by {
        if j != i {
            assert(players[j].data.wf());
        }
    }
}

impl PlayerData {
    /// Whether handling an event for automaton `object_index` is defined.
    pub fn can_handle(&self, object_index: usize) -> (ok: bool)
        ensures
            ok == self@.can_handle(object_index as int),
    {
        if self.energy == 0 {
            object_index < self.objects.len()
        } else {
            self.can_fire(object_index)
        }
    }
}

impl Event {
    /// Handles the event at tick `counter` on its owner among `players`, and
    /// returns the event that follows it, if any.
    ///
    /// Aborts, changing nothing, where the owner is not among the players or
    /// handling the event is not defined.
    pub fn fire(&self, counter: u64, players: &mut Registry) -> (r: Result<Option<Event>, Abort>)
        ensures
            r is Ok <==> can_fire_on(old(players)@, *self),
            r matches Ok(next) ==> {
                &&& final(players)@ == players_after(old(players)@, *self, counter)
                &&& next == successor_after(old(players)@, *self)
                &&& energy_kept(old(players)@, final(players)@)
                &&& records_wf(old(players)@) ==> (next matches Some(event) ==> event.delta >= 1)
            },
            r matches Err(abort) ==> abort == Abort::Fault && final(players)@ == old(players)@,
            records_wf(old(players)@) && counter < TICK_LIMIT ==> records_wf(final(players)@),
    {
        let found = players.position(&self.owner);
        match found {
            None => Err(Abort::Fault),
            Some(i) => {
                if !players.players[i].data.can_handle(self.object_index) {
                    return Err(Abort::Fault);
                }
                proof {
                    if records_wf(players@) {
                        assert(players@[i as int].data.wf());
                        lemma_delay_positive(players@[i as int].data, self.object_index as int);
                    }
                }
                let next = self.handle(counter, &mut players.players[i].data);
                proof {
                    assert(players@ =~= players_after(old(players)@, *self, counter));
                    if records_wf(old(players)@) && counter < TICK_LIMIT {
                        assert(old(players)@[i as int].data.wf());
                        assert forall|j: int| 0 <= j < players@.len() implies (
                        #[trigger] players@[j]).data.wf() by {
                            if j != i {
                                assert(players@[j] == old(players)@[j]);
                            }
                        }
                    }
                }
                Ok(next)
            },
        }
    }
}

} // verus!
