use crate::error::LatchError;
use vstd::prelude::*;

verus! {

/// The proof that a latch was taken. It is handed back to release the
/// latch, and knows whose latch that is.
pub struct Guard {
    gate: Ghost<int>,
}

impl Guard {
    /// The identity of its gate: of the one whose latch was taken.
    pub closed spec fn gate(&self) -> int {
        self.gate@
    }

    /// Takes the latch behind `flag`, which is that of `gate`, if it is
    /// free.
    fn take(flag: &mut bool, gate: Ghost<int>) -> (guard: Option<Guard>)
        ensures
            *final(flag),
            guard is Some <==> !*old(flag),
            guard matches Some(g) ==> g.gate() == gate@,
        no_unwind
    {
        if *flag {
            None
        } else {
            *flag = true;
            Some(Guard { gate })
        }
    }

    /// Takes the latch behind `flag` if it is free: sets the flag and
    /// returns a guard. Returns nothing, and leaves the flag set, if the
    /// latch is taken already. A flag by itself is the latch of no gate,
    /// so no gate takes the guard back.
    pub fn new(flag: &mut bool) -> (guard: Option<Guard>)
        ensures
            *final(flag),
            guard is Some <==> !*old(flag),
        no_unwind
    {
        Guard::take(flag, Ghost(0))
    }
}

/// A latch that lets one holder in at a time.
pub struct Gate {
    latch: bool,
    id: Ghost<int>,
}

impl Gate {
    /// Whether the latch is taken.
    pub closed spec fn is_latched(&self) -> bool {
        self.latch
    }

    /// The identity of this gate. A gate keeps it for good, and nothing is
    /// known of the identities of two gates.
    pub closed spec fn id(&self) -> int {
        self.id@
    }

    /// A gate whose latch is free.
    pub fn new() -> (gate: Gate)
        ensures
            !gate.is_latched(),
    {
        Gate { latch: false, id: Ghost(0) }
    }

    /// Whether the latch is taken.
    pub fn latched(&self) -> (taken: bool)
        ensures
            taken == self.is_latched(),
    {
        self.latch
    }

    /// Takes the latch, which must be free.
    pub fn latch(&mut self) -> (guard: Guard)
        requires
            !old(self).is_latched(),
        ensures
            final(self).is_latched(),
            final(self).id() == old(self).id(),
            guard.gate() == old(self).id(),
    {
        self.latch = true;
        Guard { gate: self.id }
    }

    /// Takes the latch if it is free; fails if it is taken.
    pub fn try_latch(&mut self) -> (taken: Result<Guard, LatchError>)
        ensures
            final(self).is_latched(),
            final(self).id() == old(self).id(),
            taken is Ok <==> !old(self).is_latched(),
            taken matches Ok(guard) ==> guard.gate() == old(self).id(),
        no_unwind
    {
        let id = self.id;
        match Guard::take(&mut self.latch, id) {
            Some(g) => Ok(g),
            None => Err(LatchError),
        }
    }

    /// Frees the latch. The guard, which must be one of this gate, is used
    /// up.
    pub fn release(&mut self, guard: Guard)
        requires
            guard.gate() == old(self).id(),
        ensures
            !final(self).is_latched(),
            final(self).id() == old(self).id(),
        no_unwind
    {
        self.latch = false;
    }
}

} // verus!
