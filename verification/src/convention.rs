//! The event queue: pending events in firing order, each stored with the
//! number of ticks after the event before it.

use crate::error::Abort;
use crate::events::{
    can_fire_on, energy_kept, event_of, players_after, successor_after, Event,
};
use crate::object::TICK_LIMIT;
use crate::registry::{records_wf, PlayerRecord, Registry};
use crate::storage::{read, Key, Storage};
use vstd::arithmetic::div_mod::lemma_add_mod_noop;
use vstd::prelude::*;

verus! {

/// A pending event with the number of ticks from now until it fires.
pub struct Scheduled {
    pub due: nat,
    pub owner: [u64; 2],
    pub object_index: usize,
}

/// Ticks from now until event `i` of `list` fires: the sum of the delays up to it.
pub open spec fn due_at(list: Seq<Event>, i: int) -> nat
    decreases i + 1,
{
    if i < 0 {
        0
    } else {
        due_at(list, i - 1) + list[i].delta as nat
    }
}

/// The events of `list` with their absolute delays.
pub open spec fn schedule(list: Seq<Event>) -> Seq<Scheduled> {
    Seq::new(
        list.len(),
        |i: int|
            Scheduled {
                due: due_at(list, i),
                owner: list[i].owner,
                object_index: list[i].object_index,
            },
    )
}

/// `event` as an entry of a schedule, due after its own delay.
pub open spec fn scheduled(event: Event) -> Scheduled {
    Scheduled { due: event.delta as nat, owner: event.owner, object_index: event.object_index }
}

/// Index of the first entry from `from` on that is due later than `due`, or
/// the length where there is none.
pub open spec fn first_later(s: Seq<Scheduled>, due: nat, from: int) -> int
    decreases s.len() - from,
{
    if from < 0 || from >= s.len() {
        s.len() as int
    } else if s[from].due > due {
        from
    } else {
        first_later(s, due, from + 1)
    }
}

/// Where an event due in `due` ticks belongs: after every entry that is due
/// no later, before the first that is.
pub open spec fn slot(s: Seq<Scheduled>, due: nat) -> int {
    first_later(s, due, 0)
}

/// The schedule with one more event, which fires after those already there
/// for the same tick.
pub open spec fn with_event(s: Seq<Scheduled>, entry: Scheduled) -> Seq<Scheduled> {
    s.insert(slot(s, entry.due), entry)
}

/// A queue as plain values: the current tick and the schedule.
#[verifier::ext_equal]
pub struct QueueModel {
    pub counter: u64,
    pub schedule: Seq<Scheduled>,
}

/// The current tick and the pending events behind it.
#[derive(Clone, Debug, PartialEq, Eq)]
pub struct EventQueue {
    pub counter: u64,
    pub list: Vec<Event>,
}

impl View for EventQueue {
    type V = QueueModel;

    open spec fn view(&self) -> QueueModel {
        QueueModel { counter: self.counter, schedule: schedule(self.list@) }
    }
}

/// The delay of an event depends only on the events up to it.
pub proof fn lemma_due_at_prefix(a: Seq<Event>, b: Seq<Event>, i: int)
    requires
        i < a.len(),
        i < b.len(),
        forall|k: int| 0 <= k <= i ==> a[k] == b[k],
    ensures
        due_at(a, i) == due_at(b, i),
    decreases i + 1,
{
    if i >= 0 {
        lemma_due_at_prefix(a, b, i - 1);
    }
}

/// Later events are due no sooner: the delays of a schedule never decrease.
pub proof fn lemma_schedule_sorted(list: Seq<Event>, i: int, j: int)
    requires
        0 <= i <= j < list.len(),
    ensures
        schedule(list)[i].due <= schedule(list)[j].due,
    decreases j - i,
{
    if i < j {
        lemma_schedule_sorted(list, i, j - 1);
    }
}

/// The entry found by `first_later` is the only index with no later entry
/// before it and a later entry, or the end, at it.
pub proof fn lemma_first_later(s: Seq<Scheduled>, due: nat, from: int, at: int)
    requires
        0 <= from <= at <= s.len(),
        forall|k: int| from <= k < at ==> s[k].due <= due,
        at < s.len() ==> s[at].due > due,
    ensures
        first_later(s, due, from) == at,
    decreases at - from,
{
    if from < at {
        lemma_first_later(s, due, from + 1, at);
    }
}

/// A new event takes its place behind every event that is due no later, and
/// so behind those that are due at the same tick, and before every event that
/// is due later; the others keep their order.
pub proof fn lemma_with_event_order(s: Seq<Scheduled>, entry: Scheduled)
    ensures
        0 <= slot(s, entry.due) <= s.len(),
        with_event(s, entry)[slot(s, entry.due)] == entry,
        forall|k: int| 0 <= k < slot(s, entry.due) ==> with_event(s, entry)[k] == s[k] && s[k].due
            <= entry.due,
        forall|k: int| slot(s, entry.due) <= k < s.len() ==> with_event(s, entry)[k + 1] == s[k],
        sorted(s) ==> forall|k: int| slot(s, entry.due) <= k < s.len() ==> s[k].due > entry.due,
        sorted(s) ==> sorted(with_event(s, entry)),
{
    lemma_first_later_found(s, entry.due, 0);
    let at = slot(s, entry.due);
    let t = with_event(s, entry);
    if sorted(s) {
        assert forall|k: int| at <= k < s.len() implies s[k].due > entry.due by {
            assert(s[at].due <= s[k].due);
        }
        assert forall|i: int, j: int| 0 <= i <= j < t.len() implies t[i].due <= t[j].due by {
            let a = if i < at {
                i
            } else {
                i - 1
            };
            let b = if j < at {
                j
            } else {
                j - 1
            };
            if i != at && j != at {
                assert(s[a].due <= s[b].due);
            }
        }
    }
}

/// The schedule of any list of events is in firing order.
pub proof fn lemma_schedule_in_order(list: Seq<Event>)
    ensures
        sorted(schedule(list)),
{
    assert forall|i: int, j: int| 0 <= i <= j < schedule(list).len() implies schedule(list)[i].due
        <= schedule(list)[j].due by {
        lemma_schedule_sorted(list, i, j);
    }
}

/// The entries are in firing order.
pub open spec fn sorted(s: Seq<Scheduled>) -> bool {
    forall|i: int, j: int| 0 <= i <= j < s.len() ==> s[i].due <= s[j].due
}

/// After an event took its place at `at`, between those due no later and the
/// next one, which gave up the newcomer's remaining delay, every later event
/// is due when it was.
proof fn lemma_due_at_shift(old_list: Seq<Event>, new_list: Seq<Event>, at: int, j: int)
    requires
        0 <= at < old_list.len(),
        at < j <= old_list.len(),
        new_list.len() == old_list.len() + 1,
        due_at(new_list, at) + new_list[at + 1].delta == due_at(old_list, at),
        forall|k: int| at + 1 < k < new_list.len() ==> new_list[k] == old_list[k - 1],
    ensures
        due_at(new_list, j) == due_at(old_list, j - 1),
    decreases j,
{
    if j > at + 1 {
        lemma_due_at_shift(old_list, new_list, at, j - 1);
    }
}

impl EventQueue {
    /// A queue at tick zero without pending events.
    pub fn new() -> (queue: Self)
        ensures
            queue@.counter == 0,
            queue@.schedule == Seq::<Scheduled>::empty(),
    {
        let queue = EventQueue { counter: 0, list: Vec::new() };
        assert(queue@.schedule =~= Seq::<Scheduled>::empty());
        queue
    }

    /// Schedules `node` to fire `node.delta` ticks from now.
    ///
    /// Every pending event fires when it would have, and `node` fires after
    /// those that are due at the same tick.
    pub fn insert(&mut self, node: Event)
        ensures
            final(self)@.counter == old(self)@.counter,
            final(self)@.schedule == with_event(old(self)@.schedule, scheduled(node)),
            final(self).list@.len() == old(self).list@.len() + 1,
    {
        let mut event = node;
        let mut i: usize = 0;
        while i < self.list.len() && self.list[i].delta <= event.delta
            invariant
                i <= self.list@.len(),
                self.list@ == old(self).list@,
                self.counter == old(self).counter,
                event.owner == node.owner,
                event.object_index == node.object_index,
                due_at(self.list@, i - 1) + event.delta == node.delta,
                forall|j: int| 0 <= j < i ==> due_at(self.list@, j) <= node.delta,
            decreases self.list@.len() - i,
        {
            event.delta -= self.list[i].delta;
            i += 1;
        }
        let ghost old_list = self.list@;
        if i < self.list.len() {
            self.list[i].delta -= event.delta;
        }
        self.list.insert(i, event);
        proof {
            let new_list = self.list@;
            let at = i as int;
            assert forall|j: int| 0 <= j < at implies due_at(new_list, j) == due_at(
                old_list,
                j,
            ) by {
                lemma_due_at_prefix(new_list, old_list, j);
            }
            assert(due_at(new_list, at - 1) == due_at(old_list, at - 1)) by {
                if at > 0 {
                    lemma_due_at_prefix(new_list, old_list, at - 1);
                } else {
                    assert(due_at(new_list, -1) == 0 && due_at(old_list, -1) == 0);
                }
            }
            assert(new_list[at] == event);
            assert(due_at(new_list, at) == due_at(new_list, at - 1) + new_list[at].delta);
            assert(due_at(new_list, at) == node.delta);
            assert forall|j: int| at < j < new_list.len() implies due_at(new_list, j) == due_at(
                old_list,
                j - 1,
            ) by {
                lemma_due_at_shift(old_list, new_list, at, j);
            }
            let s = schedule(old_list);
            lemma_first_later(s, node.delta as nat, 0, at);
            assert(schedule(new_list) =~= with_event(s, scheduled(node)));
        }
    }
}

/// First and last word of the key of every bucket of stored events.
pub const EVENTS_LEAF_INDEX: u64 = 0xfffffffe;

/// Number of buckets: the low 28 bits of a tick choose one.
pub const BUCKET_COUNT: u64 = 0x1000_0000;

/// The key under which the events that are due at `tick` are stored.
pub open spec fn bucket_key(tick: int) -> Key {
    (EVENTS_LEAF_INDEX, (tick % (BUCKET_COUNT as int)) as u64, 0, EVENTS_LEAF_INDEX)
}

/// The events that `words` hold, three words each; words left over at the
/// end are ignored.
pub open spec fn stored_events(words: Seq<u64>) -> Seq<Event> {
    Seq::new(words.len() / 3, |i: int| event_of(words.subrange(3 * i, 3 * i + 3)))
}

/// The schedule with the event that follows a handled one, if any.
pub open spec fn follow(s: Seq<Scheduled>, next: Option<Event>) -> Seq<Scheduled> {
    match next {
        Some(event) => with_event(s, scheduled(event)),
        None => s,
    }
}

/// Players and schedule after `events`, read from storage, were handled in
/// order at tick `counter`; nothing where handling one of them is not defined.
pub open spec fn after_stored(
    players: Seq<PlayerRecord>,
    s: Seq<Scheduled>,
    events: Seq<Event>,
    counter: u64,
) -> Option<(Seq<PlayerRecord>, Seq<Scheduled>)>
    decreases events.len(),
{
    if events.len() == 0 {
        Some((players, s))
    } else if !can_fire_on(players, events[0]) {
        None
    } else {
        after_stored(
            players_after(players, events[0], counter),
            follow(s, successor_after(players, events[0])),
            events.drop_first(),
            counter,
        )
    }
}

/// The first entry of a schedule as an event that is due now.
pub open spec fn head_event(s: Seq<Scheduled>) -> Event {
    Event { owner: s[0].owner, object_index: s[0].object_index, delta: 0 }
}

/// Number of entries that are due now.
pub open spec fn due_count(s: Seq<Scheduled>) -> nat {
    slot(s, 0) as nat
}

/// Players and schedule after the first `n` entries, all due now, were
/// handled in order at tick `counter`; nothing where handling one of them is
/// not defined.
pub open spec fn after_due(players: Seq<PlayerRecord>, s: Seq<Scheduled>, counter: u64, n: nat)
    -> Option<(Seq<PlayerRecord>, Seq<Scheduled>)>
    decreases n,
{
    if n == 0 {
        Some((players, s))
    } else if !can_fire_on(players, head_event(s)) {
        None
    } else {
        after_due(
            players_after(players, head_event(s), counter),
            follow(s.drop_first(), successor_after(players, head_event(s))),
            counter,
            (n - 1) as nat,
        )
    }
}

/// The schedule one tick later: every entry is due one tick sooner.
pub open spec fn advanced(s: Seq<Scheduled>) -> Seq<Scheduled> {
    Seq::new(s.len(), |i: int| Scheduled { due: (s[i].due - 1) as nat, ..s[i] })
}

/// Players and queue after one tick.
///
/// First the events stored under the bucket of the current tick are handled,
/// in stored order, then the pending events that are due now; each handled
/// event may schedule its successor. Then the clock advances. Nothing where
/// handling one of the events is not defined.
pub open spec fn ticked(players: Seq<PlayerRecord>, queue: QueueModel, storage: Map<Key, Seq<u64>>)
    -> Option<(Seq<PlayerRecord>, QueueModel)> {
    let stored = stored_events(read(storage, bucket_key(queue.counter as int)));
    match after_stored(players, queue.schedule, stored, queue.counter) {
        None => None,
        Some((players1, s1)) => match after_due(players1, s1, queue.counter, due_count(s1)) {
            None => None,
            Some((players2, s2)) => Some(
                (
                    players2,
                    QueueModel { counter: (queue.counter + 1) as u64, schedule: advanced(s2) },
                ),
            ),
        },
    }
}

/// The low 28 bits of a tick are its remainder by the number of buckets.
pub proof fn lemma_bucket_mask(tick: u64)
    by (bit_vector)
    ensures
        tick & 0xfffffff == tick % 0x1000_0000,
{
}

/// What `first_later` finds: no entry before it, from `from` on, is due
/// later, and the entry at it is, unless it is the end.
pub proof fn lemma_first_later_found(s: Seq<Scheduled>, due: nat, from: int)
    requires
        0 <= from <= s.len(),
    ensures
        from <= first_later(s, due, from) <= s.len(),
        forall|k: int| from <= k < first_later(s, due, from) ==> s[k].due <= due,
        first_later(s, due, from) < s.len() ==> s[first_later(s, due, from)].due > due,
    decreases s.len() - from,
{
    if from < s.len() && s[from].due <= due {
        lemma_first_later_found(s, due, from + 1);
    }
}

/// Without its first event, which was due now, a list has the schedule of
/// the events behind it.
proof fn lemma_schedule_without_head(list: Seq<Event>)
    requires
        list.len() > 0,
        list[0].delta == 0,
    ensures
        schedule(list.remove(0)) == schedule(list).drop_first(),
{
    let rest = list.remove(0);
    assert forall|j: int| 0 <= j < rest.len() implies due_at(rest, j) == due_at(list, j + 1) by {
        lemma_due_at_without_head(list, j);
    }
    assert(schedule(rest) =~= schedule(list).drop_first());
}

proof fn lemma_due_at_without_head(list: Seq<Event>, j: int)
    requires
        list.len() > 0,
        list[0].delta == 0,
        -1 <= j < list.len() - 1,
    ensures
        due_at(list.remove(0), j) == due_at(list, j + 1),
    decreases j + 1,
{
    let rest = list.remove(0);
    if j >= 0 {
        lemma_due_at_without_head(list, j - 1);
        assert(rest[j] == list[j + 1]);
    } else {
        assert(due_at(list, 0) == due_at(list, -1) + list[0].delta);
    }
}

/// An event that is scheduled for a later tick leaves the number of entries
/// that are due now as it is.
pub proof fn lemma_due_count_follow(s: Seq<Scheduled>, next: Option<Event>)
    requires
        next matches Some(event) ==> event.delta >= 1,
    ensures
        due_count(follow(s, next)) == due_count(s),
        due_count(s) <= s.len(),
        forall|i: int| 0 <= i < due_count(s) ==> follow(s, next)[i] == s[i],
{
    lemma_first_later_found(s, 0, 0);
    match next {
        None => {},
        Some(event) => {
            let entry = scheduled(event);
            let z = first_later(s, 0, 0);
            let k = slot(s, entry.due);
            lemma_first_later_found(s, entry.due, 0);
            let t = s.insert(k, entry);
            assert(z <= k) by {
                if k < z {
                    assert(s[k].due <= 0);
                }
            }
            lemma_first_later(t, 0, 0, z);
        },
    }
}

/// Without its first entry, which was due now, a schedule has one entry
/// less that is due now.
pub proof fn lemma_due_count_without_head(s: Seq<Scheduled>)
    requires
        s.len() > 0,
        s[0].due == 0,
    ensures
        due_count(s.drop_first()) == due_count(s) - 1,
{
    let z = first_later(s, 0, 0);
    lemma_first_later_found(s, 0, 0);
    assert(z >= 1) by {
        if z == 0 {
            assert(s[0].due > 0);
        }
    }
    lemma_first_later(s.drop_first(), 0, 0, z - 1);
}

/// With the first event one tick sooner, every event is due one tick sooner.
proof fn lemma_due_at_sooner(old_list: Seq<Event>, new_list: Seq<Event>, j: int)
    requires
        0 <= j < old_list.len(),
        new_list.len() == old_list.len(),
        old_list[0].delta >= 1,
        new_list[0].delta == old_list[0].delta - 1,
        forall|k: int| 1 <= k < old_list.len() ==> new_list[k] == old_list[k],
    ensures
        due_at(new_list, j) == due_at(old_list, j) - 1,
    decreases j,
{
    if j > 0 {
        lemma_due_at_sooner(old_list, new_list, j - 1);
    } else {
        assert(due_at(new_list, -1) == 0 && due_at(old_list, -1) == 0);
    }
}

impl EventQueue {
    /// Appends the queue's one storage word, the current tick, to `buf`.
    pub fn to_data(&self, buf: &mut Vec<u64>)
        ensures
            final(buf)@ == old(buf)@.push(self.counter),
    {
        buf.push(self.counter);
    }

    /// Reads a queue from the word of `data` at `start`: the tick, with no
    /// pending event.
    pub fn from_data(data: &Vec<u64>, start: usize) -> (r: Option<(Self, usize)>)
        ensures
            r.is_some() <==> start < data@.len(),
            r matches Some((queue, next)) ==> {
                &&& next == start + 1
                &&& queue@.counter == data@[start as int]
                &&& queue@.schedule == Seq::<Scheduled>::empty()
            },
    {
        if start >= data.len() {
            return None;
        }
        let queue = EventQueue { counter: data[start], list: Vec::new() };
        assert(queue@.schedule =~= Seq::<Scheduled>::empty());
        Some((queue, start + 1))
    }

    /// The key under which the events that are due at `tick` are stored.
    pub fn bucket_key(tick: u64) -> (key: [u64; 4])
        ensures
            crate::storage::key_of(key) == bucket_key(tick as int),
    {
        proof {
            lemma_bucket_mask(tick);
        }
        [EVENTS_LEAF_INDEX, tick & 0xfffffff, 0, EVENTS_LEAF_INDEX]
    }

    /// The events that the next tick handles, in order: those stored under
    /// the bucket of the current tick, then the pending ones that are due now.
    pub fn due_events(&self, storage: &Storage) -> (events: Vec<Event>)
        ensures
            events@ == stored_events(read(storage@, bucket_key(self.counter as int)))
                + self.list@.subrange(0, due_count(self@.schedule) as int),
            due_count(self@.schedule) <= self.list@.len(),
    {
        let entries_data = storage.get(&Self::bucket_key(self.counter));
        let entries_nb = entries_data.len() / Event::u64size();
        let ghost stored = stored_events(entries_data@);
        let mut events: Vec<Event> = Vec::new();
        let mut k: usize = 0;
        let mut position: usize = 0;
        while k < entries_nb
            invariant
                k <= entries_nb,
                position == 3 * k,
                3 * entries_nb <= entries_data@.len(),
                stored.len() == entries_nb,
                stored == stored_events(entries_data@),
                events@ == stored.subrange(0, k as int),
            decreases entries_nb - k,
        {
            let read = Event::from_data(&entries_data, position);
            let (event, next_position) = read.unwrap();
            events.push(event);
            assert(events@ =~= stored.subrange(0, k + 1));
            position = next_position;
            k += 1;
        }
        assert(stored.subrange(0, k as int) =~= stored);
        let mut i: usize = 0;
        proof {
            lemma_first_later_found(self@.schedule, 0, 0);
        }
        while i < self.list.len() && self.list[i].delta == 0
            invariant
                i <= self.list@.len(),
                due_count(self@.schedule) <= self.list@.len(),
                forall|j: int| 0 <= j < i ==> due_at(self.list@, j) == 0,
                events@ == stored + self.list@.subrange(0, i as int),
            decreases self.list@.len() - i,
        {
            assert(due_at(self.list@, i as int) == due_at(self.list@, i - 1)
                + self.list@[i as int].delta);
            events.push(self.list[i]);
            assert(events@ =~= stored + self.list@.subrange(0, i + 1));
            i += 1;
        }
        proof {
            let s = self@.schedule;
            assert(due_at(self.list@, -1) == 0);
            if i < self.list@.len() {
                assert(due_at(self.list@, i as int) == due_at(self.list@, i - 1)
                    + self.list@[i as int].delta);
                assert(s[i as int].due > 0);
            }
            assert forall|j: int| 0 <= j < i implies s[j].due <= 0 by {
                assert(due_at(self.list@, j) == 0);
            }
            lemma_first_later(s, 0, 0, i as int);
        }
        events
    }

    /// Advances the clock by one tick.
    ///
    /// Handles the events stored under the bucket of the current tick, then
    /// the pending events that are due now, each on its owner among
    /// `players`, and schedules their successors. Aborts where handling one
    /// of them is not defined. No player gains energy.
    pub fn tick(&mut self, players: &mut Registry, storage: &Storage) -> (r: Result<(), Abort>)
        requires
            records_wf(old(players)@),
            old(self).counter + 1 < TICK_LIMIT,
        ensures
            r is Ok <==> ticked(old(players)@, old(self)@, storage@) is Some,
            r is Ok ==> (final(players)@, final(self)@) == ticked(
                old(players)@,
                old(self)@,
                storage@,
            ).unwrap(),
            r matches Err(abort) ==> abort == Abort::Fault && final(self).counter
                == old(self).counter,
            records_wf(final(players)@),
            energy_kept(old(players)@, final(players)@),
    {
        let counter = self.counter;
        let entries_data = storage.get(&Self::bucket_key(counter));
        let entries_nb = entries_data.len() / Event::u64size();
        let ghost stored = stored_events(entries_data@);
        let ghost target = after_stored(old(players)@, old(self)@.schedule, stored, counter);
        let ghost goal = ticked(old(players)@, old(self)@, storage@);
        assert(stored.subrange(0, entries_nb as int) =~= stored);
        let mut k: usize = 0;
        let mut position: usize = 0;
        while k < entries_nb
            invariant
                k <= entries_nb,
                position == 3 * k,
                3 * entries_nb <= entries_data@.len(),
                stored.len() == entries_nb,
                stored == stored_events(entries_data@),
                self.counter == counter,
                counter == old(self).counter,
                counter + 1 < TICK_LIMIT,
                records_wf(players@),
                energy_kept(old(players)@, players@),
                goal == ticked(old(players)@, old(self)@, storage@),
                target is None ==> goal is None,
                after_stored(
                    players@,
                    self@.schedule,
                    stored.subrange(k as int, entries_nb as int),
                    counter,
                ) == target,
            decreases entries_nb - k,
        {
            let read = Event::from_data(&entries_data, position);
            let (event, next_position) = read.unwrap();
            let ghost rest = stored.subrange(k as int, entries_nb as int);
            assert(rest[0] == event);
            assert(rest.drop_first() =~= stored.subrange(k + 1, entries_nb as int));
            match event.fire(counter, players) {
                Err(abort) => {
                    return Err(abort);
                },
                Ok(next) => {
                    if let Some(successor) = next {
                        self.insert(successor);
                    }
                },
            }
            position = next_position;
            k += 1;
        }
        assert(stored.subrange(k as int, entries_nb as int) =~= Seq::<Event>::empty());
        let ghost target_due = after_due(
            players@,
            self@.schedule,
            counter,
            due_count(self@.schedule),
        );
        while self.list.len() > 0 && self.list[0].delta == 0
            invariant
                goal == ticked(old(players)@, old(self)@, storage@),
                target_due is None ==> goal is None,
                self.counter == counter,
                counter == old(self).counter,
                counter + 1 < TICK_LIMIT,
                records_wf(players@),
                energy_kept(old(players)@, players@),
                after_due(players@, self@.schedule, counter, due_count(self@.schedule))
                    == target_due,
            decreases due_count(self@.schedule),
        {
            let head = self.list[0];
            let ghost s = self@.schedule;
            proof {
                assert(due_at(self.list@, 0) == due_at(self.list@, -1) + self.list@[0].delta);
                lemma_schedule_without_head(self.list@);
                lemma_due_count_without_head(s);
                assert(head.owner == head_event(s).owner);
                assert(head == head_event(s));
            }
            match head.fire(counter, players) {
                Err(abort) => {
                    return Err(abort);
                },
                Ok(next) => {
                    self.list.remove(0);
                    proof {
                        lemma_due_count_follow(s.drop_first(), next);
                    }
                    if let Some(successor) = next {
                        self.insert(successor);
                    }
                },
            }
        }
        proof {
            let s = self@.schedule;
            lemma_first_later_found(s, 0, 0);
            assert(due_count(s) == 0) by {
                if due_count(s) > 0 {
                    assert(s[0].due <= 0);
                }
            }
        }
        let ghost before = self.list@;
        if self.list.len() > 0 {
            self.list[0].delta -= 1;
            proof {
                let after = self.list@;
                assert forall|j: int| 0 <= j < before.len() implies due_at(after, j) == due_at(
                    before,
                    j,
                ) - 1 by {
                    lemma_due_at_sooner(before, after, j);
                }
            }
        }
        assert(schedule(self.list@) =~= advanced(schedule(before)));
        self.counter += 1;
        Ok(())
    }
}

/// The storage after the first `n` events of `list` were filed at tick
/// `counter`: the words of each event are added, in order, at the end of the
/// bucket of the tick at which the event is due.
pub open spec fn filed(storage: Map<Key, Seq<u64>>, counter: u64, list: Seq<Event>, n: int) -> Map<
    Key,
    Seq<u64>,
>
    decreases n,
{
    if n <= 0 {
        storage
    } else {
        let before = filed(storage, counter, list, n - 1);
        let key = bucket_key(counter + due_at(list, n - 1));
        before.insert(key, read(before, key) + list[n - 1].words())
    }
}

/// The storage once the words in `buf`, if any, are added at the end of
/// what is stored under `key`.
pub open spec fn flushed(storage: Map<Key, Seq<u64>>, key: Key, buf: Seq<u64>) -> Map<
    Key,
    Seq<u64>,
> {
    if buf.len() == 0 {
        storage
    } else {
        storage.insert(key, read(storage, key) + buf)
    }
}

impl EventQueue {
    /// Adds the words in `buf` at the end of the bucket `bucket`, and empties `buf`.
    fn flush(storage: &mut Storage, bucket: u64, buf: &mut Vec<u64>)
        requires
            bucket < BUCKET_COUNT,
        ensures
            final(storage)@ == flushed(old(storage)@, bucket_key(bucket as int), old(buf)@),
            final(buf)@ == Seq::<u64>::empty(),
    {
        if buf.len() > 0 {
            let key = Self::bucket_key(bucket);
            let mut entries = storage.get(&key);
            entries.append(buf);
            storage.set(&key, entries);
        }
        assert(buf@ =~= Seq::<u64>::empty());
    }

    /// The keys of the buckets that `store` adds to: for each pending event,
    /// in order, the key of the bucket of the tick at which it is due.
    pub fn bucket_keys(&self) -> (keys: Vec<[u64; 4]>)
        ensures
            keys@.len() == self.list@.len(),
            forall|i: int|
                0 <= i < keys@.len() ==> crate::storage::key_of(#[trigger] keys@[i]) == bucket_key(
                    self.counter + due_at(self.list@, i),
                ),
    {
        proof {
            lemma_bucket_mask(self.counter);
        }
        let mut bucket: u64 = self.counter & 0xfffffff;
        let mut keys: Vec<[u64; 4]> = Vec::new();
        let mut i: usize = 0;
        while i < self.list.len()
            invariant
                i <= self.list@.len(),
                keys@.len() == i,
                bucket < BUCKET_COUNT,
                bucket == (self.counter + due_at(self.list@, i - 1)) % (BUCKET_COUNT as int),
                forall|j: int|
                    0 <= j < i ==> crate::storage::key_of(#[trigger] keys@[j]) == bucket_key(
                        self.counter + due_at(self.list@, j),
                    ),
            decreases self.list@.len() - i,
        {
            let delta = self.list[i].delta;
            proof {
                lemma_bucket_mask(delta);
                lemma_bucket_mask((bucket + (delta & 0xfffffff)) as u64);
                lemma_add_mod_noop(
                    self.counter + due_at(self.list@, i - 1),
                    delta as int,
                    BUCKET_COUNT as int,
                );
                assert(bucket as int % (BUCKET_COUNT as int) == bucket);
            }
            bucket = (bucket + (delta & 0xfffffff)) & 0xfffffff;
            keys.push(Self::bucket_key(bucket));
            i += 1;
        }
        keys
    }

    /// Moves every pending event into storage: the words of each are added
    /// at the end of the bucket of the tick at which it is due. The queue is
    /// left without pending events, at the same tick.
    pub fn store(&mut self, storage: &mut Storage)
        ensures
            final(storage)@ == filed(
                old(storage)@,
                old(self).counter,
                old(self).list@,
                old(self).list@.len() as int,
            ),
            final(self)@.counter == old(self)@.counter,
            final(self)@.schedule == Seq::<Scheduled>::empty(),
            final(self).list@ == Seq::<Event>::empty(),
    {
        let counter = self.counter;
        let ghost list = self.list@;
        proof {
            lemma_bucket_mask(counter);
        }
        let mut bucket: u64 = counter & 0xfffffff;
        let mut buf: Vec<u64> = Vec::new();
        let mut i: usize = 0;
        while i < self.list.len()
            invariant
                i <= list.len(),
                self.list@ == list,
                self.counter == counter,
                bucket < BUCKET_COUNT,
                bucket == (counter + due_at(list, i - 1)) % (BUCKET_COUNT as int),
                flushed(storage@, bucket_key(bucket as int), buf@) == filed(
                    old(storage)@,
                    counter,
                    list,
                    i as int,
                ),
            decreases list.len() - i,
        {
            let event = self.list[i];
            let ghost before = storage@;
            let ghost pending = buf@;
            let ghost old_bucket = bucket;
            if event.delta > 0 {
                Self::flush(storage, bucket, &mut buf);
                proof {
                    lemma_bucket_mask(event.delta);
                    lemma_bucket_mask((bucket + (event.delta & 0xfffffff)) as u64);
                    lemma_add_mod_noop(
                        counter + due_at(list, i - 1),
                        event.delta as int,
                        BUCKET_COUNT as int,
                    );
                    assert(bucket as int % (BUCKET_COUNT as int) == bucket);
                }
                bucket = (bucket + (event.delta & 0xfffffff)) & 0xfffffff;
            }
            event.to_data(&mut buf);
            proof {
                let key = bucket_key(bucket as int);
                assert(key == bucket_key(counter + due_at(list, i as int)));
                let reached = filed(old(storage)@, counter, list, i as int);
                if event.delta == 0 && pending.len() > 0 {
                    assert(read(reached, key) + event.words() =~= read(before, key) + buf@);
                    assert(flushed(storage@, key, buf@) =~= filed(
                        old(storage)@,
                        counter,
                        list,
                        i + 1,
                    ));
                } else {
                    assert(buf@ =~= event.words());
                }
            }
            i += 1;
        }
        Self::flush(storage, bucket, &mut buf);
        self.list.clear();
        assert(self@.schedule =~= Seq::<Scheduled>::empty());
    }
}

} // verus!
