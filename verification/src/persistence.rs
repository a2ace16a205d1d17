//! What storing the state and reading it back keeps: the next tick handles
//! the same events in the same order, whether they wait in memory or in
//! their buckets.

use crate::convention::{
    advanced, after_due, after_stored, bucket_key, due_at, due_count, filed, follow, head_event,
    lemma_due_count_follow, lemma_due_count_without_head, lemma_first_later_found,
    lemma_schedule_sorted, schedule, scheduled, slot, stored_events, ticked, QueueModel,
    Scheduled, BUCKET_COUNT,
};
use crate::events::{
    can_fire_on, energy_kept, lemma_event_of_words, lemma_fire_keeps_wf, players_after,
    successor_after, Event,
};
use crate::object::TICK_LIMIT;
use crate::registry::{records_wf, PlayerRecord};
use crate::state::{state_stored, STATE_KEY};
use crate::storage::{key_of, read, Key};
use vstd::prelude::*;

verus! {

/// The players after `events` were handled in order at tick `counter`;
/// nothing where handling one of them is not defined.
pub open spec fn players_through(players: Seq<PlayerRecord>, events: Seq<Event>, counter: u64)
    -> Option<Seq<PlayerRecord>>
    decreases events.len(),
{
    if events.len() == 0 {
        Some(players)
    } else if !can_fire_on(players, events[0]) {
        None
    } else {
        players_through(
            players_after(players, events[0], counter),
            events.drop_first(),
            counter,
        )
    }
}

/// The first `n` entries of a schedule as events that are due now.
pub open spec fn heads(s: Seq<Scheduled>, n: nat) -> Seq<Event> {
    Seq::new(n, |i: int| Event { owner: s[i].owner, object_index: s[i].object_index, delta: 0 })
}

/// The words of `events`, one event after the other.
pub open spec fn words_of(events: Seq<Event>) -> Seq<u64>
    decreases events.len(),
{
    if events.len() == 0 {
        Seq::empty()
    } else {
        words_of(events.drop_last()) + events.last().words()
    }
}

/// The events that the next tick handles, in order: those stored under the
/// bucket of the current tick, then the pending ones that are due now.
pub open spec fn due_now(queue: QueueModel, storage: Map<Key, Seq<u64>>) -> Seq<Event> {
    stored_events(read(storage, bucket_key(queue.counter as int))) + heads(
        queue.schedule,
        due_count(queue.schedule),
    )
}

/// Handling one list of events after another is handling their concatenation.
pub proof fn lemma_through_concat(
    players: Seq<PlayerRecord>,
    first: Seq<Event>,
    second: Seq<Event>,
    counter: u64,
)
    ensures
        players_through(players, first + second, counter) == match players_through(
            players,
            first,
            counter,
        ) {
            Some(between) => players_through(between, second, counter),
            None => None,
        },
    decreases first.len(),
{
    if first.len() == 0 {
        assert(first + second =~= second);
    } else {
        assert((first + second)[0] == first[0]);
        assert((first + second).drop_first() =~= first.drop_first() + second);
        if can_fire_on(players, first[0]) {
            lemma_through_concat(
                players_after(players, first[0], counter),
                first.drop_first(),
                second,
                counter,
            );
        }
    }
}

/// Handling events keeps well-formed players well-formed and gives none of
/// them energy.
pub proof fn lemma_through_wf(players: Seq<PlayerRecord>, events: Seq<Event>, counter: u64)
    requires
        records_wf(players),
        counter < TICK_LIMIT,
    ensures
        players_through(players, events, counter) matches Some(after) ==> records_wf(after)
            && energy_kept(players, after),
    decreases events.len(),
{
    if events.len() > 0 && can_fire_on(players, events[0]) {
        let between = players_after(players, events[0], counter);
        lemma_fire_keeps_wf(players, events[0], counter);
        lemma_through_wf(between, events.drop_first(), counter);
    }
}

/// The stored events change the players as `players_through` says, and
/// leave the entries of the schedule that are due now as they are.
pub proof fn lemma_after_stored(
    players: Seq<PlayerRecord>,
    s: Seq<Scheduled>,
    events: Seq<Event>,
    counter: u64,
)
    requires
        records_wf(players),
        counter < TICK_LIMIT,
    ensures
        after_stored(players, s, events, counter) is Some <==> players_through(
            players,
            events,
            counter,
        ) is Some,
        after_stored(players, s, events, counter) matches Some((after, s2)) ==> {
            &&& Some(after) == players_through(players, events, counter)
            &&& records_wf(after)
            &&& due_count(s2) == due_count(s)
            &&& due_count(s) <= s.len()
            &&& forall|i: int| 0 <= i < due_count(s) ==> s2[i] == s[i]
        },
    decreases events.len(),
{
    lemma_due_count_follow(s, None);
    if events.len() > 0 && can_fire_on(players, events[0]) {
        let between = players_after(players, events[0], counter);
        let next = successor_after(players, events[0]);
        lemma_fire_keeps_wf(players, events[0], counter);
        lemma_due_count_follow(s, next);
        lemma_after_stored(between, follow(s, next), events.drop_first(), counter);
    }
}

/// The pending events that are due now change the players as
/// `players_through` says.
pub proof fn lemma_after_due(players: Seq<PlayerRecord>, s: Seq<Scheduled>, counter: u64, n: nat)
    requires
        records_wf(players),
        counter < TICK_LIMIT,
        n <= due_count(s),
    ensures
        after_due(players, s, counter, n) is Some <==> players_through(
            players,
            heads(s, n),
            counter,
        ) is Some,
        after_due(players, s, counter, n) matches Some((after, _)) ==> Some(after)
            == players_through(players, heads(s, n), counter),
    decreases n,
{
    lemma_first_later_found(s, 0, 0);
    if n > 0 {
        assert(s[0].due == 0);
        assert(heads(s, n)[0] == head_event(s));
        if can_fire_on(players, head_event(s)) {
            let between = players_after(players, head_event(s), counter);
            let next = successor_after(players, head_event(s));
            let rest = s.drop_first();
            lemma_fire_keeps_wf(players, head_event(s), counter);
            lemma_due_count_without_head(s);
            lemma_due_count_follow(rest, next);
            let s2 = follow(rest, next);
            assert forall|i: int| 0 <= i < n - 1 implies heads(s2, (n - 1) as nat)[i] == heads(
                s,
                n,
            ).drop_first()[i] by {
                assert(s2[i] == rest[i]);
                assert(rest[i] == s[i + 1]);
            }
            assert(heads(s2, (n - 1) as nat) =~= heads(s, n).drop_first());
            lemma_after_due(between, s2, counter, (n - 1) as nat);
        }
    }
}

/// A tick changes the players as handling the events that are due now does.
pub proof fn lemma_ticked_players(
    players: Seq<PlayerRecord>,
    queue: QueueModel,
    storage: Map<Key, Seq<u64>>,
)
    requires
        records_wf(players),
        queue.counter < TICK_LIMIT,
    ensures
        ticked(players, queue, storage) is Some <==> players_through(
            players,
            due_now(queue, storage),
            queue.counter,
        ) is Some,
        ticked(players, queue, storage) matches Some((after, next)) ==> {
            &&& Some(after) == players_through(players, due_now(queue, storage), queue.counter)
            &&& next.counter == queue.counter + 1
            &&& records_wf(after)
            &&& energy_kept(players, after)
        },
{
    let stored = stored_events(read(storage, bucket_key(queue.counter as int)));
    let s = queue.schedule;
    lemma_after_stored(players, s, stored, queue.counter);
    lemma_through_concat(players, stored, heads(s, due_count(s)), queue.counter);
    lemma_through_wf(players, due_now(queue, storage), queue.counter);
    match after_stored(players, s, stored, queue.counter) {
        None => {},
        Some((players1, s1)) => {
            lemma_after_due(players1, s1, queue.counter, due_count(s1));
            assert(heads(s1, due_count(s1)) =~= heads(s, due_count(s)));
        },
    }
}

/// The events of a list that are due now are its first ones, and they
/// follow each other without delay.
pub proof fn lemma_due_prefix(list: Seq<Event>)
    ensures
        due_count(schedule(list)) <= list.len(),
        forall|i: int|
            0 <= i < due_count(schedule(list)) ==> due_at(list, i) == 0 && (#[trigger] list[i]).delta
                == 0,
        forall|i: int|
            due_count(schedule(list)) <= i < list.len() ==> #[trigger] due_at(list, i) > 0,
{
    let s = schedule(list);
    let z = due_count(s) as int;
    lemma_first_later_found(s, 0, 0);
    assert forall|i: int| 0 <= i < z implies due_at(list, i) == 0 && (#[trigger] list[i]).delta
        == 0 by {
        assert(s[i].due <= 0);
        assert(due_at(list, i) == due_at(list, i - 1) + list[i].delta);
    }
    assert forall|i: int| z <= i < list.len() implies #[trigger] due_at(list, i) > 0 by {
        lemma_schedule_sorted(list, z, i);
        assert(s[z].due > 0);
        assert(s[i].due == due_at(list, i));
    }
}

/// The words of events take three places each, and event `i` is found at its place.
pub proof fn lemma_words_of_at(events: Seq<Event>, i: int)
    requires
        0 <= i < events.len(),
    ensures
        words_of(events).len() == 3 * events.len(),
        words_of(events).subrange(3 * i, 3 * i + 3) == events[i].words(),
    decreases events.len(),
{
    lemma_words_of_len(events);
    lemma_words_of_len(events.drop_last());
    if i == events.len() - 1 {
        assert(words_of(events).subrange(3 * i, 3 * i + 3) =~= events[i].words());
    } else {
        lemma_words_of_at(events.drop_last(), i);
        assert(words_of(events).subrange(3 * i, 3 * i + 3) =~= words_of(
            events.drop_last(),
        ).subrange(3 * i, 3 * i + 3));
    }
}

/// The words of events take three places each.
pub proof fn lemma_words_of_len(events: Seq<Event>)
    ensures
        words_of(events).len() == 3 * events.len(),
    decreases events.len(),
{
    if events.len() > 0 {
        lemma_words_of_len(events.drop_last());
    }
}

/// Events whose words are added behind whole stored events are read back
/// behind those events.
pub proof fn lemma_stored_events_append(words: Seq<u64>, events: Seq<Event>)
    requires
        words.len() % 3 == 0,
        forall|i: int| 0 <= i < events.len() ==> (#[trigger] events[i]).storable(),
    ensures
        stored_events(words + words_of(events)) == stored_events(words) + events,
{
    lemma_words_of_len(events);
    let all = words + words_of(events);
    let n = (words.len() / 3) as int;
    assert(all.len() / 3 == n + events.len());
    assert forall|i: int| 0 <= i < n + events.len() implies stored_events(all)[i] == (
    stored_events(words) + events)[i] by {
        if i < n {
            assert(all.subrange(3 * i, 3 * i + 3) =~= words.subrange(3 * i, 3 * i + 3));
        } else {
            let j = i - n;
            lemma_words_of_at(events, j);
            assert(all.subrange(3 * i, 3 * i + 3) =~= words_of(events).subrange(
                3 * j,
                3 * j + 3,
            ));
            lemma_event_of_words(events[j]);
        }
    }
    assert(stored_events(all) =~= stored_events(words) + events);
}

/// Where every event is due in less than 2^28 ticks, filing the first `n`
/// events of a list adds to the bucket of the current tick the words of
/// those among them that are due now, and leaves the state key alone.
pub proof fn lemma_filed_bucket(storage: Map<Key, Seq<u64>>, counter: u64, list: Seq<Event>, n: int)
    requires
        0 <= n <= list.len(),
        forall|i: int| 0 <= i < list.len() ==> #[trigger] due_at(list, i) < BUCKET_COUNT,
    ensures
        read(filed(storage, counter, list, n), key_of(STATE_KEY)) == read(
            storage,
            key_of(STATE_KEY),
        ),
        read(filed(storage, counter, list, n), bucket_key(counter as int)) == read(
            storage,
            bucket_key(counter as int),
        ) + words_of(
            list.subrange(
                0,
                if n < due_count(schedule(list)) {
                    n
                } else {
                    due_count(schedule(list)) as int
                },
            ),
        ),
    decreases n,
{
    let z = due_count(schedule(list)) as int;
    lemma_due_prefix(list);
    if n == 0 {
        assert(list.subrange(0, 0) =~= Seq::<Event>::empty());
        assert(read(storage, bucket_key(counter as int)) + words_of(list.subrange(0, 0)) =~= read(
            storage,
            bucket_key(counter as int),
        ));
    } else {
        lemma_filed_bucket(storage, counter, list, n - 1);
        let before = filed(storage, counter, list, n - 1);
        let due = due_at(list, n - 1);
        let key = bucket_key(counter + due);
        if n - 1 < z {
            assert(due == 0);
            assert(list.subrange(0, n).drop_last() =~= list.subrange(0, n - 1));
            assert(list.subrange(0, n).last() == list[n - 1]);
        } else {
            assert(0 < due < BUCKET_COUNT);
            assert((counter + due) % (BUCKET_COUNT as int) != counter as int % (
            BUCKET_COUNT as int));
        }
    }
}

/// Storing the state and reading it back does not change what the next
/// tick does to the players.
///
/// Where the players are well-formed, every pending event is due in less
/// than 2^28 ticks and names an automaton below 2^32, and the bucket of the
/// current tick holds whole events: the stored state holds supply and clock,
/// and a tick from the stored state, with no event in memory, handles the
/// same events in the same order as a tick from the state as it was. It
/// aborts if and only if that one does, and leaves the same players and the
/// same clock.
pub proof fn lemma_store_then_initialize(
    players: Seq<PlayerRecord>,
    supplier: u64,
    counter: u64,
    list: Seq<Event>,
    storage: Map<Key, Seq<u64>>,
)
    requires
        records_wf(players),
        counter < TICK_LIMIT,
        read(storage, bucket_key(counter as int)).len() % 3 == 0,
        forall|i: int| 0 <= i < list.len() ==> #[trigger] due_at(list, i) < BUCKET_COUNT,
        forall|i: int| 0 <= i < list.len() ==> (#[trigger] list[i]).object_index <= 0xffff_ffff,
    ensures
        ({
            let stored = state_stored(storage, supplier, counter, list);
            let before = QueueModel { counter, schedule: schedule(list) };
            let restored = QueueModel { counter, schedule: Seq::<Scheduled>::empty() };
            &&& read(stored, key_of(STATE_KEY)) == seq![supplier, counter]
            &&& due_now(restored, stored) == due_now(before, storage)
            &&& ticked(players, restored, stored) is Some <==> ticked(players, before, storage)
                is Some
            &&& ticked(players, restored, stored) matches Some((players2, queue2)) ==> {
                &&& ticked(players, before, storage) matches Some((players1, queue1))
                &&& players1 == players2
                &&& queue1.counter == queue2.counter
            }
        }),
{
    let written = storage.insert(key_of(STATE_KEY), seq![supplier, counter]);
    let stored = state_stored(storage, supplier, counter, list);
    let before = QueueModel { counter, schedule: schedule(list) };
    let restored = QueueModel { counter, schedule: Seq::<Scheduled>::empty() };
    let z = due_count(schedule(list));
    let due = list.subrange(0, z as int);
    lemma_due_prefix(list);
    lemma_filed_bucket(written, counter, list, list.len() as int);
    assert(read(written, bucket_key(counter as int)) == read(storage, bucket_key(counter as int)));
    assert forall|i: int| 0 <= i < due.len() implies (#[trigger] due[i]).storable() by {
        assert(list[i].delta == 0);
    }
    lemma_stored_events_append(read(storage, bucket_key(counter as int)), due);
    assert(heads(schedule(list), z) =~= due) by {
        assert forall|i: int| 0 <= i < z implies heads(schedule(list), z)[i] == due[i] by {
            assert(list[i].delta == 0);
        }
    }
    lemma_first_later_found(restored.schedule, 0, 0);
    assert(heads(restored.schedule, due_count(restored.schedule)) =~= Seq::<Event>::empty());
    assert(due_now(restored, stored) =~= due_now(before, storage));
    lemma_ticked_players(players, restored, stored);
    lemma_ticked_players(players, before, storage);
}

/// `entry` is among the entries of `s`.
pub open spec fn pending(s: Seq<Scheduled>, entry: Scheduled) -> bool {
    exists|j: int| 0 <= j < s.len() && s[j] == entry
}

/// `entry` one tick closer.
pub open spec fn sooner(entry: Scheduled) -> Scheduled {
    Scheduled { due: (entry.due - 1) as nat, ..entry }
}

/// Scheduling the successor of a handled event removes no entry.
pub proof fn lemma_follow_keeps(s: Seq<Scheduled>, next: Option<Event>, entry: Scheduled)
    requires
        pending(s, entry),
    ensures
        pending(follow(s, next), entry),
{
    match next {
        None => {},
        Some(event) => {
            let at = slot(s, scheduled(event).due);
            lemma_first_later_found(s, scheduled(event).due, 0);
            let j = choose|j: int| 0 <= j < s.len() && s[j] == entry;
            let after = follow(s, next);
            if j < at {
                assert(after[j] == entry);
            } else {
                assert(after[j + 1] == entry);
            }
        },
    }
}

/// Handling the stored events removes no pending entry.
pub proof fn lemma_after_stored_keeps(
    players: Seq<PlayerRecord>,
    s: Seq<Scheduled>,
    events: Seq<Event>,
    counter: u64,
    entry: Scheduled,
)
    requires
        pending(s, entry),
    ensures
        after_stored(players, s, events, counter) matches Some((_, s2)) ==> pending(s2, entry),
    decreases events.len(),
{
    if events.len() > 0 && can_fire_on(players, events[0]) {
        let next = successor_after(players, events[0]);
        lemma_follow_keeps(s, next, entry);
        lemma_after_stored_keeps(
            players_after(players, events[0], counter),
            follow(s, next),
            events.drop_first(),
            counter,
            entry,
        );
    }
}

/// Handling the pending events that are due now removes no entry that is
/// due later.
pub proof fn lemma_after_due_keeps(
    players: Seq<PlayerRecord>,
    s: Seq<Scheduled>,
    counter: u64,
    n: nat,
    entry: Scheduled,
)
    requires
        records_wf(players),
        counter < TICK_LIMIT,
        n <= due_count(s),
        pending(s, entry),
        entry.due > 0,
    ensures
        after_due(players, s, counter, n) matches Some((_, s2)) ==> pending(s2, entry),
    decreases n,
{
    lemma_first_later_found(s, 0, 0);
    if n > 0 && can_fire_on(players, head_event(s)) {
        assert(s[0].due == 0);
        let between = players_after(players, head_event(s), counter);
        let next = successor_after(players, head_event(s));
        let rest = s.drop_first();
        let j = choose|j: int| 0 <= j < s.len() && s[j] == entry;
        assert(rest[j - 1] == entry);
        lemma_fire_keeps_wf(players, head_event(s), counter);
        lemma_due_count_without_head(s);
        lemma_due_count_follow(rest, next);
        lemma_follow_keeps(rest, next, entry);
        lemma_after_due_keeps(between, follow(rest, next), counter, (n - 1) as nat, entry);
    }
}

/// A tick handles only events that are due: every pending event that is due
/// later is still pending after the tick, one tick closer, and so at the
/// same tick of the clock as before.
pub proof fn lemma_tick_keeps_pending(
    players: Seq<PlayerRecord>,
    queue: QueueModel,
    storage: Map<Key, Seq<u64>>,
    entry: Scheduled,
)
    requires
        records_wf(players),
        queue.counter < TICK_LIMIT,
        pending(queue.schedule, entry),
        entry.due > 0,
    ensures
        ticked(players, queue, storage) matches Some((_, next)) ==> {
            &&& pending(next.schedule, sooner(entry))
            &&& next.counter + sooner(entry).due == queue.counter + entry.due
        },
{
    let stored = stored_events(read(storage, bucket_key(queue.counter as int)));
    let s = queue.schedule;
    lemma_after_stored(players, s, stored, queue.counter);
    lemma_after_stored_keeps(players, s, stored, queue.counter, entry);
    match after_stored(players, s, stored, queue.counter) {
        None => {},
        Some((players1, s1)) => {
            lemma_after_due_keeps(players1, s1, queue.counter, due_count(s1), entry);
            match after_due(players1, s1, queue.counter, due_count(s1)) {
                None => {},
                Some((_, s2)) => {
                    let j = choose|j: int| 0 <= j < s2.len() && s2[j] == entry;
                    assert(advanced(s2)[j] == sooner(entry));
                },
            }
        },
    }
}

/// A tick at which no event is due, stored or pending, changes no player
/// and brings every pending event one tick closer.
pub proof fn lemma_quiet_tick(
    players: Seq<PlayerRecord>,
    queue: QueueModel,
    storage: Map<Key, Seq<u64>>,
)
    requires
        read(storage, bucket_key(queue.counter as int)).len() < 3,
        due_count(queue.schedule) == 0,
    ensures
        ticked(players, queue, storage) == Some(
            (
                players,
                QueueModel {
                    counter: (queue.counter + 1) as u64,
                    schedule: advanced(queue.schedule),
                },
            ),
        ),
{
    let stored = stored_events(read(storage, bucket_key(queue.counter as int)));
    assert(stored.len() == 0);
}

} // verus!
