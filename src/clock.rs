//! Lamport timestamps with a deterministic tie-break on the actor.
use std::cmp::Ordering;
use vstd::prelude::*;

verus! {

/// Identifies a replica.
pub type Actor = u64;

/// A Lamport counter paired with the actor that issued it.
///
/// Clocks are totally ordered: first by counter, then by actor. Two clocks
/// are equal only when both parts match.
#[derive(Clone, Copy, Debug, PartialEq, Eq, Structural, Hash, Ord)]
pub struct Clock {
    /// The Lamport counter.
    pub counter: u64,
    /// The actor that issued this timestamp.
    pub actor_id: Actor,
}

impl Clock {
    /// `self` comes strictly before `other`.
    pub open spec fn before(self, other: Clock) -> bool {
        self.counter < other.counter || (self.counter == other.counter && self.actor_id
            < other.actor_id)
    }

    /// The three-way comparison of two clocks.
    pub open spec fn compare_spec(self, other: Clock) -> Ordering {
        if self.before(other) {
            Ordering::Less
        } else if other.before(self) {
            Ordering::Greater
        } else {
            Ordering::Equal
        }
    }

    /// A clock for `actor_id`, starting at `counter` (zero when absent).
    pub fn new(actor_id: Actor, counter: Option<u64>) -> (r: Clock)
        ensures
            r.actor_id == actor_id,
            r.counter == (match counter {
                Some(c) => c,
                None => 0,
            }),
    {
        let counter = match counter {
            Some(c) => c,
            None => 0,
        };
        Clock { counter, actor_id }
    }

    /// The same actor with the counter one higher.
    pub fn inc(&self) -> (r: Clock)
        requires
            self.counter < u64::MAX,
        ensures
            r.actor_id == self.actor_id,
            r.counter == self.counter + 1,
    {
        Clock::new(self.actor_id, Some(self.counter + 1))
    }

    /// Advances the counter by one and returns the new value.
    pub fn tick(&mut self) -> (r: Clock)
        requires
            old(self).counter < u64::MAX,
        ensures
            final(self).actor_id == old(self).actor_id,
            final(self).counter == old(self).counter + 1,
            r == *final(self),
    {
        self.counter = self.counter + 1;
        *self
    }

    /// The actor that issued this timestamp.
    pub fn actor_id(&self) -> (r: &Actor)
        ensures
            *r == self.actor_id,
    {
        &self.actor_id
    }

    /// The same actor with the larger of the two counters.
    pub fn merge(&self, other: &Clock) -> (r: Clock)
        ensures
            r.actor_id == self.actor_id,
            r.counter == if self.counter >= other.counter {
                self.counter
            } else {
                other.counter
            },
    {
        let counter = if self.counter >= other.counter {
            self.counter
        } else {
            other.counter
        };
        Clock::new(self.actor_id, Some(counter))
    }

    /// Three-way comparison: by counter, then by actor.
    pub fn compare(&self, other: &Clock) -> (r: Ordering)
        ensures
            r == self.compare_spec(*other),
    {
        if self.counter == other.counter {
            if self.actor_id < other.actor_id {
                Ordering::Less
            } else if self.actor_id > other.actor_id {
                Ordering::Greater
            } else {
                Ordering::Equal
            }
        } else if self.counter > other.counter {
            Ordering::Greater
        } else {
            Ordering::Less
        }
    }
}

impl PartialOrd for Clock {
    fn partial_cmp(&self, other: &Clock) -> (r: Option<Ordering>) {
        Some(self.compare(other))
    }
}

impl vstd::std_specs::cmp::PartialOrdSpecImpl for Clock {
    open spec fn obeys_partial_cmp_spec() -> bool {
        true
    }

    open spec fn partial_cmp_spec(&self, other: &Clock) -> Option<Ordering> {
        Some(self.compare_spec(*other))
    }
}

/// The order on clocks is irreflexive.
pub proof fn lemma_clock_irreflexive(a: Clock)
    ensures
        !a.before(a),
{
}

/// The order on clocks is antisymmetric.
pub proof fn lemma_clock_antisymmetric(a: Clock, b: Clock)
    ensures
        !(a.before(b) && b.before(a)),
        a.compare_spec(b) == Ordering::Equal <==> a == b,
{
}

/// The order on clocks is transitive.
pub proof fn lemma_clock_transitive(a: Clock, b: Clock, c: Clock)
    requires
        a.before(b),
        b.before(c),
    ensures
        a.before(c),
{
}

/// Any two distinct clocks are ordered one way or the other.
pub proof fn lemma_clock_total(a: Clock, b: Clock)
    ensures
        a == b || a.before(b) || b.before(a),
        a.compare_spec(b) == Ordering::Less <==> b.compare_spec(a) == Ordering::Greater,
{
}

} // verus!
