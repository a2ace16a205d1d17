//! Withdrawals that wait for the next settlement.

use vstd::prelude::*;

verus! {

/// The withdrawals accepted since the last settlement, oldest first, each as
/// the three payload words of its transaction.
#[derive(Clone, Debug, PartialEq, Eq)]
pub struct SettlementInfo(pub Vec<[u64; 3]>);

impl View for SettlementInfo {
    type V = Seq<[u64; 3]>;

    open spec fn view(&self) -> Seq<[u64; 3]> {
        self.0@
    }
}

impl SettlementInfo {
    /// No withdrawal waits.
    pub fn new() -> (settlement: Self)
        ensures
            settlement@ == Seq::<[u64; 3]>::empty(),
    {
        SettlementInfo(Vec::new())
    }

    /// Adds a withdrawal behind those that wait.
    pub fn append_settlement(&mut self, info: [u64; 3])
        ensures
            final(self)@ == old(self)@.push(info),
    {
        self.0.push(info);
    }

    /// Hands out the withdrawals that wait, oldest first, and leaves none.
    pub fn flush_settlement(&mut self) -> (pending: Vec<[u64; 3]>)
        ensures
            pending@ == old(self)@,
            final(self)@ == Seq::<[u64; 3]>::empty(),
    {
        let mut pending: Vec<[u64; 3]> = Vec::new();
        pending.append(&mut self.0);
        assert(pending@ =~= old(self)@);
        pending
    }
}

} // verus!
