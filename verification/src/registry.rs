//! The shared statistics registry: per-agent event counters, keyed by agent
//! identity, created lazily on the first recorded event.

use vstd::prelude::*;

verus! {

/// The pair of counters kept for one agent: completed admissions recorded
/// while holding a permit (`eats`) and recorded think events (`thinks`).
#[derive(Clone, Copy, PartialEq, Eq, Structural, Debug)]
pub struct PhaseCounts {
    pub eats: u64,
    pub thinks: u64,
}

/// Counters for a fixed population of agent identities `0 .. n`.
///
/// A slot is `None` until the first event for that identity is recorded;
/// from then on it holds the running counts, which never decrease.
pub struct StatsRegistry {
    slots: Vec<Option<PhaseCounts>>,
}

impl StatsRegistry {
    /// The whole mapping, as the sequence of per-identity entries.
    pub closed spec fn entries(&self) -> Seq<Option<PhaseCounts>> {
        self.slots@
    }

    /// The number of identities the registry covers.
    pub open spec fn n(&self) -> int {
        self.entries().len() as int
    }

    /// The entry for identity `id`: `None` while no event was recorded.
    pub open spec fn entry(&self, id: int) -> Option<PhaseCounts> {
        self.entries()[id]
    }

    /// The eat count of `id`, reading an absent entry as zero.
    pub open spec fn eats(&self, id: int) -> u64 {
        match self.entry(id) {
            Some(c) => c.eats,
            None => 0,
        }
    }

    /// The think count of `id`, reading an absent entry as zero.
    pub open spec fn thinks(&self, id: int) -> u64 {
        match self.entry(id) {
            Some(c) => c.thinks,
            None => 0,
        }
    }

    /// Creates a registry for identities `0 .. n`, with every entry absent.
    pub fn new(n: usize) -> (reg: Self)
        ensures
            reg.n() == n,
            forall|id: int| 0 <= id < n ==> reg.entry(id) is None,
    {
        let mut slots: Vec<Option<PhaseCounts>> = Vec::new();
        let mut i: usize = 0;
        while i < n
            invariant
                i <= n,
                slots@.len() == i,
                forall|id: int| 0 <= id < i ==> slots@[id] is None,
            decreases n - i,
        {
            slots.push(None);
            i = i + 1;
        }
        StatsRegistry { slots }
    }

    /// Exposes the population size to executable callers.
    pub fn len(&self) -> (n: usize)
        ensures
            n == self.n(),
    {
        self.slots.len()
    }

    /// Exposes the eat count of `id` to executable callers.
    pub fn eat_count(&self, id: usize) -> (c: u64)
        requires
            id < self.n(),
        ensures
            c == self.eats(id as int),
    {
        match self.slots[id] {
            Some(c) => c.eats,
            None => 0,
        }
    }

    /// Exposes the think count of `id` to executable callers.
    pub fn think_count(&self, id: usize) -> (c: u64)
        requires
            id < self.n(),
        ensures
            c == self.thinks(id as int),
    {
        match self.slots[id] {
            Some(c) => c.thinks,
            None => 0,
        }
    }

    /// Exposes the entry of `id` to executable callers.
    pub fn entry_at(&self, id: usize) -> (e: Option<PhaseCounts>)
        requires
            id < self.n(),
        ensures
            e == self.entry(id as int),
    {
        self.slots[id]
    }

    /// True when an entry exists for `id`, i.e. some event was recorded.
    pub fn has_entry(&self, id: usize) -> (b: bool)
        requires
            id < self.n(),
        ensures
            b == (self.entry(id as int) is Some),
    {
        self.slots[id].is_some()
    }

    /// Records one think event for `id`: the think count rises by exactly
    /// one, the entry is created if absent, and nothing else changes.
    pub fn record_think(&mut self, id: usize)
        requires
            id < old(self).n(),
            old(self).thinks(id as int) < u64::MAX,
        ensures
            final(self).n() == old(self).n(),
            final(self).entry(id as int) is Some,
            final(self).thinks(id as int) == old(self).thinks(id as int) + 1,
            final(self).eats(id as int) == old(self).eats(id as int),
            forall|j: int| 0 <= j < old(self).n() && j != id
                ==> final(self).entry(j) == old(self).entry(j),
    {
        let updated = match self.slots[id] {
            Some(c) => PhaseCounts { eats: c.eats, thinks: c.thinks + 1 },
            None => PhaseCounts { eats: 0, thinks: 1 },
        };
        vstd::pervasive::VecAdditionalExecFns::set(&mut self.slots, id, Some(updated));
    }

    /// Records one eat event for `id`: the eat count rises by exactly one,
    /// the entry is created if absent, and nothing else changes.
    pub fn record_eat(&mut self, id: usize)
        requires
            id < old(self).n(),
            old(self).eats(id as int) < u64::MAX,
        ensures
            final(self).n() == old(self).n(),
            final(self).entry(id as int) is Some,
            final(self).eats(id as int) == old(self).eats(id as int) + 1,
            final(self).thinks(id as int) == old(self).thinks(id as int),
            forall|j: int| 0 <= j < old(self).n() && j != id
                ==> final(self).entry(j) == old(self).entry(j),
    {
        let updated = match self.slots[id] {
            Some(c) => PhaseCounts { eats: c.eats + 1, thinks: c.thinks },
            None => PhaseCounts { eats: 1, thinks: 0 },
        };
        vstd::pervasive::VecAdditionalExecFns::set(&mut self.slots, id, Some(updated));
    }

    /// Copies the whole mapping at one consistent instant: the result holds
    /// exactly the entries the registry holds.
    pub fn snapshot(&self) -> (snap: Vec<Option<PhaseCounts>>)
        ensures
            snap@ == self.entries(),
    {
        let mut snap: Vec<Option<PhaseCounts>> = Vec::new();
        let mut i: usize = 0;
        while i < self.slots.len()
            invariant
                i <= self.slots@.len(),
                snap@ == self.slots@.take(i as int),
            decreases self.slots@.len() - i,
        {
            snap.push(self.slots[i]);
            proof {
                assert(snap@ =~= self.slots@.take(i as int + 1));
            }
            i = i + 1;
        }
        proof {
            assert(snap@ =~= self.slots@);
        }
        snap
    }
}

} // verus!
