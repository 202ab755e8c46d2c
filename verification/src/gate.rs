//! The capacity-bounded admission gate: a counting primitive that limits the
//! number of simultaneously outstanding permits to a fixed capacity.

use vstd::prelude::*;

verus! {

/// A token witnessing one successful admission through a [`ResourceGate`].
///
/// A permit cannot be constructed outside this module and is not `Clone`,
/// so it is surrendered exactly once, by value, to [`ResourceGate::release`].
pub struct Permit {
    _granted: (),
}

/// A counting admission gate with fixed capacity.
///
/// At most `capacity` permits are outstanding at any time; `available`
/// counts the admission slots not currently held.
pub struct ResourceGate {
    capacity: usize,
    available: usize,
}

impl ResourceGate {
    /// The fixed capacity the admission gate was created with.
    pub closed spec fn capacity(&self) -> int {
        self.capacity as int
    }

    /// The number of admission slots not currently held.
    pub closed spec fn available(&self) -> int {
        self.available as int
    }

    /// The number of permits currently outstanding.
    pub open spec fn outstanding(&self) -> int {
        self.capacity() - self.available()
    }

    /// Basic well-formedness: the free-slot count never exceeds the
    /// capacity, and the capacity is positive.
    pub open spec fn wf(&self) -> bool {
        &&& 0 < self.capacity()
        &&& 0 <= self.available() <= self.capacity()
    }

    /// Creates a gate with `capacity` slots, all initially available.
    pub fn new(capacity: usize) -> (gate: Self)
        requires
            capacity > 0,
        ensures
            gate.wf(),
            gate.capacity() == capacity,
            gate.available() == capacity,
    {
        ResourceGate { capacity, available: capacity }
    }

    /// Exposes the capacity to executable callers.
    pub fn capacity_count(&self) -> (k: usize)
        ensures
            k == self.capacity(),
    {
        self.capacity
    }

    /// Exposes the free-slot count to executable callers.
    pub fn available_count(&self) -> (a: usize)
        ensures
            a == self.available(),
    {
        self.available
    }

    /// True when an acquisition would succeed right now.
    pub fn can_admit(&self) -> (b: bool)
        ensures
            b == (self.available() > 0),
    {
        self.available > 0
    }

    /// Admits one caller if a slot is free: on success one slot is consumed
    /// and a permit is issued; with no free slot the admission gate is unchanged and
    /// no permit is issued.
    pub fn try_acquire(&mut self) -> (granted: Option<Permit>)
        ensures
            final(self).capacity() == old(self).capacity(),
            granted.is_some() <==> old(self).available() > 0,
            granted.is_some() ==> final(self).available() == old(self).available() - 1,
            granted.is_none() ==> final(self).available() == old(self).available(),
    {
        if self.available > 0 {
            self.available = self.available - 1;
            Some(Permit { _granted: () })
        } else {
            None
        }
    }

    /// Returns one permit, freeing its slot. The permit is consumed by
    /// value, so each permit can be released at most once; the caller must
    /// hold a permit of this gate, which keeps `available` below `capacity`.
    pub fn release(&mut self, permit: Permit)
        requires
            old(self).outstanding() > 0,
        ensures
            final(self).capacity() == old(self).capacity(),
            final(self).available() == old(self).available() + 1,
    {
        let _ = permit;
        self.available = self.available + 1;
    }
}

} // verus!
