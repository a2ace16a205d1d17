//! The players of a world, each with its identifier and transaction counter.

use crate::player::{PlayerData, PlayerModel};
use vstd::prelude::*;

verus! {

/// A player as the world keeps it: identifier, number of the next
/// transaction, and what the player holds.
#[derive(Clone, Debug, PartialEq, Eq)]
pub struct AutomataPlayer {
    pub player_id: [u64; 2],
    pub nonce: u64,
    pub data: PlayerData,
}

/// A kept player, as plain values.
#[verifier::ext_equal]
pub struct PlayerRecord {
    pub id: (u64, u64),
    pub nonce: u64,
    pub data: PlayerModel,
}

/// The two words of an identifier as a pair.
pub open spec fn id_of(pid: [u64; 2]) -> (u64, u64) {
    (pid[0], pid[1])
}

impl View for AutomataPlayer {
    type V = PlayerRecord;

    open spec fn view(&self) -> PlayerRecord {
        PlayerRecord { id: id_of(self.player_id), nonce: self.nonce, data: self.data@ }
    }
}

impl PlayerRecord {
    /// A player who has made no transaction yet.
    pub open spec fn fresh(id: (u64, u64)) -> PlayerRecord {
        PlayerRecord { id, nonce: 0, data: PlayerModel::fresh() }
    }

    /// The record with other holdings.
    pub open spec fn with_data(self, data: PlayerModel) -> PlayerRecord {
        PlayerRecord { data, ..self }
    }

    /// The record after one more transaction.
    pub open spec fn stepped(self) -> PlayerRecord {
        PlayerRecord { nonce: (self.nonce + 1) as u64, ..self }
    }
}

impl AutomataPlayer {
    /// A new player with the given identifier.
    pub fn new_from_pid(pid: [u64; 2]) -> (player: Self)
        ensures
            player@ == PlayerRecord::fresh(id_of(pid)),
            player@.data.wf(),
    {
        AutomataPlayer { player_id: pid, nonce: 0, data: PlayerData::default() }
    }

    /// Counts one more transaction where `nonce` is the number that the
    /// player expects; says whether it was.
    pub fn check_and_inc_nonce(&mut self, nonce: u64) -> (matched: bool)
        ensures
            matched == (old(self).nonce == nonce && nonce < u64::MAX),
            matched ==> final(self)@ == old(self)@.stepped(),
            !matched ==> final(self)@ == old(self)@,
    {
        if self.nonce == nonce && nonce < u64::MAX {
            self.nonce += 1;
            true
        } else {
            false
        }
    }
}

/// Index of the first of `records` with identifier `id`, searching from `from`.
pub open spec fn position_from(records: Seq<PlayerRecord>, id: (u64, u64), from: int) -> Option<int>
    decreases records.len() - from,
{
    if from < 0 || from >= records.len() {
        None
    } else if records[from].id == id {
        Some(from)
    } else {
        position_from(records, id, from + 1)
    }
}

/// Index of the first of `records` with identifier `id`.
pub open spec fn position_of(records: Seq<PlayerRecord>, id: (u64, u64)) -> Option<int> {
    position_from(records, id, 0)
}

/// Every player is well-formed.
pub open spec fn records_wf(records: Seq<PlayerRecord>) -> bool {
    forall|i: int| 0 <= i < records.len() ==> (#[trigger] records[i]).data.wf()
}

/// A position that was found lies in the list and holds the identifier.
pub proof fn lemma_position_found(records: Seq<PlayerRecord>, id: (u64, u64), from: int)
    requires
        0 <= from,
    ensures
        position_from(records, id, from) matches Some(i) ==> from <= i < records.len()
            && records[i].id == id,
        position_from(records, id, from) is None ==> forall|i: int|
            from <= i < records.len() ==> (#[trigger] records[i]).id != id,
    decreases records.len() - from,
{
    if from < records.len() && records[from].id != id {
        lemma_position_found(records, id, from + 1);
    }
}

/// Replacing a record by one with the same identifier moves no position.
pub proof fn lemma_position_update(
    records: Seq<PlayerRecord>,
    at: int,
    record: PlayerRecord,
    id: (u64, u64),
    from: int,
)
    requires
        0 <= at < records.len(),
        0 <= from,
        record.id == records[at].id,
    ensures
        position_from(records.update(at, record), id, from) == position_from(records, id, from),
    decreases records.len() - from,
{
    if from < records.len() && records[from].id != id {
        lemma_position_update(records, at, record, id, from + 1);
    }
}

/// The players of a world, in the order in which they joined.
#[derive(Clone, Debug, PartialEq, Eq)]
pub struct Registry {
    pub players: Vec<AutomataPlayer>,
}

impl View for Registry {
    type V = Seq<PlayerRecord>;

    open spec fn view(&self) -> Seq<PlayerRecord> {
        Seq::new(self.players@.len(), |i: int| self.players@[i]@)
    }
}

impl Registry {
    /// A world without players.
    pub fn new() -> (registry: Self)
        ensures
            registry@ == Seq::<PlayerRecord>::empty(),
    {
        let registry = Registry { players: Vec::new() };
        assert(registry@ =~= Seq::<PlayerRecord>::empty());
        registry
    }

    /// Index of the player with identifier `pid`, if there is one.
    pub fn position(&self, pid: &[u64; 2]) -> (found: Option<usize>)
        ensures
            found matches Some(i) ==> position_of(self@, id_of(*pid)) == Some(i as int) && i
                < self.players@.len() && self@[i as int].id == id_of(*pid),
            found is None ==> position_of(self@, id_of(*pid)) is None,
    {
        let mut i: usize = 0;
        while i < self.players.len()
            invariant
                i <= self.players@.len(),
                position_of(self@, id_of(*pid)) == position_from(self@, id_of(*pid), i as int),
            decreases self.players@.len() - i,
        {
            if self.players[i].player_id[0] == pid[0] && self.players[i].player_id[1] == pid[1] {
                return Some(i);
            }
            i += 1;
        }
        None
    }

    /// Whether every player is well-formed.
    pub fn well_formed(&self) -> (ok: bool)
        ensures
            ok == records_wf(self@),
    {
        let mut i: usize = 0;
        while i < self.players.len()
            invariant
                i <= self.players@.len(),
                forall|j: int| 0 <= j < i ==> (#[trigger] self@[j]).data.wf(),
            decreases self.players@.len() - i,
        {
            if !self.players[i].data.well_formed() {
                assert(!self@[i as int].data.wf());
                return false;
            }
            i += 1;
        }
        true
    }

    /// Adds a player at the end.
    pub fn add(&mut self, player: AutomataPlayer)
        ensures
            final(self)@ == old(self)@.push(player@),
    {
        self.players.push(player);
        assert(self@ =~= old(self)@.push(player@));
    }
}

} // verus!
