//! A replica: its state, its clock, and the latest timestamp it has seen
//! from each actor, from which it finds the causally stable threshold that
//! bounds log truncation.
use std::collections::HashMap;
use vstd::prelude::*;

use crate::clock::{Actor, Clock};
use crate::opmove::OpMove;
use crate::state::{apply_seq, empty_model, kept_len, State, StateModel};
use crate::tree::Tree;
use crate::treenode::TreeMeta;

verus! {

broadcast use vstd::std_specs::hash::group_hash_axioms;

/// The abstract content of a [`Replica`].
pub struct ReplicaModel<TM> {
    /// The replica's actor.
    pub id: Actor,
    /// The replica's state.
    pub state: StateModel<TM>,
    /// The local clock.
    pub time: Clock,
    /// The latest timestamp seen from each actor.
    pub last_seen: Map<Actor, Clock>,
}

/// Records that `c` was seen: it becomes the latest of its actor unless a
/// clock at least as new was seen from that actor.
pub open spec fn observe(m: Map<Actor, Clock>, c: Clock) -> Map<Actor, Clock> {
    if m.contains_key(c.actor_id) && !m[c.actor_id].before(c) {
        m
    } else {
        m.insert(c.actor_id, c)
    }
}

/// Records the timestamps of `ops`, in order.
pub open spec fn observe_seq<TM>(m: Map<Actor, Clock>, ops: Seq<OpMove<TM>>) -> Map<Actor, Clock>
    decreases ops.len(),
{
    if ops.len() == 0 {
        m
    } else {
        observe(observe_seq(m, ops.drop_last()), ops.last().timestamp)
    }
}

/// The local clock after merging in the timestamps of `ops`.
pub open spec fn merge_seq<TM>(c: Clock, ops: Seq<OpMove<TM>>) -> Clock
    decreases ops.len(),
{
    if ops.len() == 0 {
        c
    } else {
        let prev = merge_seq(c, ops.drop_last());
        Clock {
            counter: if prev.counter >= ops.last().timestamp.counter {
                prev.counter
            } else {
                ops.last().timestamp.counter
            },
            actor_id: c.actor_id,
        }
    }
}

/// `c` is the oldest of the clocks in `m`.
pub open spec fn is_min_clock(m: Map<Actor, Clock>, c: Clock) -> bool {
    m.values().contains(c) && forall|v: Clock| #[trigger] m.values().contains(v) ==> !v.before(c)
}

/// The oldest of the latest clocks seen from each actor: no move older than
/// it can still arrive from any of them.
pub open spec fn stable_threshold(m: Map<Actor, Clock>) -> Option<Clock> {
    if m.dom().len() == 0 {
        None
    } else {
        Some(choose|c: Clock| is_min_clock(m, c))
    }
}

/// One replica: its state, its local clock, and the latest timestamp it has
/// seen from each actor.
#[derive(Debug)]
pub struct Replica<TM: TreeMeta> {
    id: Actor,
    state: State<TM>,
    time: Clock,
    latest_time_by_replica: HashMap<Actor, Clock>,
}

impl<TM: TreeMeta> View for Replica<TM> {
    type V = ReplicaModel<TM>;

    closed spec fn view(&self) -> ReplicaModel<TM> {
        ReplicaModel {
            id: self.id,
            state: self.state@,
            time: self.time,
            last_seen: self.latest_time_by_replica@,
        }
    }
}

impl<TM: TreeMeta> Replica<TM> {
    /// The replica's state is well formed.
    pub closed spec fn wf(&self) -> bool {
        self.state.wf()
    }

    /// A replica for actor `id` with an empty state and a clock at zero.
    pub fn new(id: Actor) -> (r: Replica<TM>)
        ensures
            r.wf(),
            r@.id == id,
            r@.state == empty_model::<TM>(),
            r@.time == (Clock { counter: 0, actor_id: id }),
            r@.last_seen == Map::<Actor, Clock>::empty(),
    {
        let r = Replica {
            id,
            state: State::new(),
            time: Clock::new(id, None),
            latest_time_by_replica: HashMap::new(),
        };
        assert(r@.state.log =~= empty_model::<TM>().log);
        r
    }

    /// The replica's actor.
    pub fn id(&self) -> (r: &Actor)
        ensures
            *r == self@.id,
    {
        &self.id
    }

    /// The replica's state.
    pub fn state(&self) -> (r: &State<TM>)
        requires
            self.wf(),
        ensures
            r.wf(),
            r@ == self@.state,
    {
        &self.state
    }

    /// The replica's tree.
    pub fn tree(&self) -> (r: &Tree<TM>)
        requires
            self.wf(),
        ensures
            r.wf(),
            r@ == self@.state.tree,
    {
        self.state.tree()
    }

    /// Advances the local clock and returns it, to stamp a local move.
    pub fn tick(&mut self) -> (r: Clock)
        requires
            old(self).wf(),
            old(self)@.time.counter < u64::MAX,
        ensures
            final(self).wf(),
            r == final(self)@.time,
            r == (Clock { counter: (old(self)@.time.counter + 1) as u64, actor_id: old(self)@.time.actor_id }),
            final(self)@.id == old(self)@.id,
            final(self)@.state == old(self)@.state,
            final(self)@.last_seen == old(self)@.last_seen,
    {
        self.time = self.time.inc();
        self.time
    }

    /// Applies each of `ops`: the local clock catches up with its timestamp,
    /// the timestamp is recorded as seen from its actor, and the move is
    /// applied to the state.
    pub fn apply_ops(&mut self, ops: &Vec<OpMove<TM>>)
        requires
            old(self).wf(),
        ensures
            final(self).wf(),
            final(self)@.id == old(self)@.id,
            final(self)@.state == apply_seq(old(self)@.state, ops@),
            final(self)@.time == merge_seq(old(self)@.time, ops@),
            final(self)@.last_seen == observe_seq(old(self)@.last_seen, ops@),
    {
        let mut i: usize = 0;
        while i < ops.len()
            invariant
                i <= ops.len(),
                self.wf(),
                self@.id == old(self)@.id,
                self@.state == apply_seq(old(self)@.state, ops@.take(i as int)),
                self@.time == merge_seq(old(self)@.time, ops@.take(i as int)),
                self@.last_seen == observe_seq(old(self)@.last_seen, ops@.take(i as int)),
            decreases ops.len() - i,
        {
            let op = ops[i];
            self.time = self.time.merge(&op.timestamp);
            let id = op.timestamp.actor_id;
            let newer = match self.latest_time_by_replica.get(&id) {
                Some(latest) => *latest < op.timestamp,
                None => true,
            };
            if newer {
                self.latest_time_by_replica.insert(id, op.timestamp);
            }
            self.state.apply_op(op);
            i = i + 1;
            assert(ops@.take(i as int).drop_last() =~= ops@.take(i - 1));
            assert(ops@.take(i as int).last() == op);
            assert(self@.last_seen =~= observe_seq(old(self)@.last_seen, ops@.take(i as int)));
        }
        assert(ops@.take(i as int) =~= ops@);
    }

    /// The oldest of the latest timestamps seen from each actor, or `None`
    /// if nothing was seen.
    pub fn causally_stable_threshold(&self) -> (r: Option<Clock>)
        ensures
            r == stable_threshold(self@.last_seen),
    {
        let mut best: Option<Clock> = None;
        for v in it: self.latest_time_by_replica.values()
            invariant
                it.seq().unref().to_set() == self@.last_seen.values(),
                it.seq().len() == self@.last_seen.dom().len(),
                best is None <==> it.index() == 0,
                best matches Some(b) ==> (exists|k: int|
                    0 <= k < it.index() && *it.seq()[k] == b),
                best matches Some(b) ==> (forall|k: int|
                    0 <= k < it.index() ==> !(*#[trigger] it.seq()[k]).before(b)),
                it.index() == it.seq().len() ==> (best matches Some(bb) ==> is_min_clock(
                    self@.last_seen,
                    bb,
                )),
        {
            let ghost k0 = it.index();
            best = match best {
                Some(b) => if *v < b {
                    Some(*v)
                } else {
                    Some(b)
                },
                None => Some(*v),
            };
            proof {
                let b = best->0;
                assert(*it.seq()[k0] == *v);
                assert forall|k: int| 0 <= k < k0 + 1 implies !(*#[trigger] it.seq()[k]).before(
                    b,
                ) by {}
                assert(exists|k: int| 0 <= k < k0 + 1 && *it.seq()[k] == b);
                assert forall|c: Clock| #[trigger] self@.last_seen.values().contains(c) implies exists|
                    k: int,
                | 0 <= k < it.seq().len() && *it.seq()[k] == c by {
                    assert(it.seq().unref().to_set().contains(c));
                    let k = choose|k: int|
                        0 <= k < it.seq().unref().len() && it.seq().unref()[k] == c;
                    assert(*it.seq()[k] == c);
                }
                assert forall|k: int| 0 <= k < it.seq().len() implies self@.last_seen.values().contains(
                    *#[trigger] it.seq()[k],
                ) by {
                    assert(it.seq().unref()[k] == *it.seq()[k]);
                    assert(it.seq().unref().to_set().contains(it.seq().unref()[k]));
                }
            }
        }
        proof {
            if let Some(b) = best {
                let c = choose|c: Clock| is_min_clock(self@.last_seen, c);
                assert(is_min_clock(self@.last_seen, c));
                crate::clock::lemma_clock_total(b, c);
            } else {
                assert(self@.last_seen.dom().len() == 0);
            }
        }
        best
    }

    /// Truncates the log before the causally stable threshold, if there is
    /// one, and tells whether any entry was dropped.
    pub fn truncate_log(&mut self) -> (r: bool)
        requires
            old(self).wf(),
        ensures
            final(self).wf(),
            final(self)@.id == old(self)@.id,
            final(self)@.time == old(self)@.time,
            final(self)@.last_seen == old(self)@.last_seen,
            final(self)@.state.tree == old(self)@.state.tree,
            match stable_threshold(old(self)@.last_seen) {
                Some(t) => {
                    &&& final(self)@.state.log == old(self)@.state.log.take(
                        kept_len(old(self)@.state.log, t) as int,
                    )
                    &&& r == (kept_len(old(self)@.state.log, t) < old(self)@.state.log.len())
                },
                None => final(self)@.state == old(self)@.state && !r,
            },
    {
        match self.causally_stable_threshold() {
            Some(t) => self.state.truncate_log_before(&t),
            None => false,
        }
    }
}

} // verus!
