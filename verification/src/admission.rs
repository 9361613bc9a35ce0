//! A counting limiter for the number of connections served at once.

use vstd::prelude::*;

verus! {

/// How many connections the server serves at once unless told otherwise.
pub const MAX_CONNECTIONS: usize = 64;

/// A slot of an [`Admission`], held by one session for as long as it lives.
///
/// A ticket cannot be copied, and only [`Admission::try_acquire`] makes one:
/// a slot is handed back at most once.
#[derive(Debug)]
pub struct Ticket {
    slot: (),
}

/// A pool of slots, as plain numbers.
pub struct Slots {
    /// How many slots there are.
    pub capacity: nat,
    /// How many of them are taken.
    pub held: nat,
}

impl Slots {
    /// No more slots are taken than there are.
    pub open spec fn wf(self) -> bool {
        self.held <= self.capacity
    }

    /// Whether a slot is free.
    pub open spec fn available(self) -> bool {
        self.held < self.capacity
    }

    /// The pool after an attempt to take a slot: one more is taken if one was
    /// free, and nothing changes if none was.
    pub open spec fn acquire(self) -> Slots {
        if self.available() {
            Slots { held: self.held + 1, ..self }
        } else {
            self
        }
    }

    /// The pool after one slot has been handed back.
    pub open spec fn release(self) -> Slots {
        if self.held > 0 {
            Slots { held: (self.held - 1) as nat, ..self }
        } else {
            self
        }
    }
}

/// A pool of slots of fixed capacity.
#[derive(Debug)]
pub struct Admission {
    capacity: usize,
    held: usize,
}

impl View for Admission {
    type V = Slots;

    closed spec fn view(&self) -> Slots {
        Slots { capacity: self.capacity as nat, held: self.held as nat }
    }
}

impl Admission {
    /// A pool of `capacity` free slots.
    pub fn new(capacity: usize) -> (pool: Admission)
        ensures
            pool@ == (Slots { capacity: capacity as nat, held: 0 }),
    {
        Admission { capacity, held: 0 }
    }

    /// Takes a slot if one is free, without waiting. A refusal takes nothing.
    pub fn try_acquire(&mut self) -> (ticket: Option<Ticket>)
        ensures
            ticket is Some <==> old(self)@.available(),
            final(self)@ == old(self)@.acquire(),
    {
        if self.held < self.capacity {
            self.held = self.held + 1;
            Some(Ticket { slot: () })
        } else {
            None
        }
    }

    /// Hands a slot back. The ticket is used up.
    pub fn release(&mut self, ticket: Ticket)
        ensures
            final(self)@ == old(self)@.release(),
    {
        if self.held > 0 {
            self.held = self.held - 1;
        }
    }

    /// The number of slots.
    pub fn capacity(&self) -> (n: usize)
        ensures
            n == self@.capacity,
    {
        self.capacity
    }

    /// The number of slots that are taken.
    pub fn held(&self) -> (n: usize)
        ensures
            n == self@.held,
    {
        self.held
    }
}

/// Taking and handing back keep the pool within its capacity.
pub proof fn law_slots_stay_bounded(pool: Slots)
    requires
        pool.wf(),
    ensures
        pool.acquire().wf(),
        pool.release().wf(),
        pool.acquire().capacity == pool.capacity,
        pool.release().capacity == pool.capacity,
{
}

/// A full pool refuses and takes nothing; once one slot has been handed
/// back, the next attempt succeeds.
pub proof fn law_full_pool_refuses(pool: Slots)
    requires
        pool.wf(),
        pool.capacity > 0,
        pool.held == pool.capacity,
    ensures
        !pool.available(),
        pool.acquire() == pool,
        pool.release().available(),
        pool.release().acquire() == pool,
{
}

} // verus!
