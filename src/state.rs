//! A replica's state: the tree plus the log of applied moves, newest first,
//! and the apply / undo / redo algorithm that keeps replicas convergent.
use vstd::prelude::*;

use crate::clock::Clock;
use crate::logopmove::LogOpMove;
use crate::opmove::OpMove;
use crate::tree::{is_ancestor_of, Tree};
use crate::treenode::{TreeId, TreeMeta, TreeNode};

verus! {

/// The abstract content of a [`State`]: its log, newest first, and its tree
/// as a map from each node to its parent and metadata.
pub struct StateModel<TM> {
    /// The log entries, newest first.
    pub log: Seq<LogOpMove<TM>>,
    /// Each node's parent and metadata.
    pub tree: Map<TreeId, TreeNode<TM>>,
}

/// Whether a move is refused on `t`: a node cannot become its own parent,
/// nor a child of one of its descendants.
pub open spec fn move_refused<TM>(t: Map<TreeId, TreeNode<TM>>, op: OpMove<TM>) -> bool {
    op.child_id == op.parent_id || is_ancestor_of(t, op.parent_id, op.child_id)
}

/// The tree after performing `op` on `t`: unchanged if the move is refused,
/// else the child is (re)attached under the new parent.
pub open spec fn do_tree<TM>(t: Map<TreeId, TreeNode<TM>>, op: OpMove<TM>) -> Map<
    TreeId,
    TreeNode<TM>,
> {
    if move_refused(t, op) {
        t
    } else {
        t.insert(op.child_id, TreeNode { parent_id: op.parent_id, metadata: op.metadata })
    }
}

/// The log entry for performing `op` on `t`: the child's record in `t`, if any.
pub open spec fn log_entry<TM>(t: Map<TreeId, TreeNode<TM>>, op: OpMove<TM>) -> LogOpMove<TM> {
    LogOpMove {
        op,
        oldp: if t.contains_key(op.child_id) {
            Some(t[op.child_id])
        } else {
            None
        },
    }
}

/// The tree after undoing `l` on `t`: the child gets back its previous record,
/// or disappears if it had none.
pub open spec fn undo_tree<TM>(t: Map<TreeId, TreeNode<TM>>, l: LogOpMove<TM>) -> Map<
    TreeId,
    TreeNode<TM>,
> {
    match l.oldp {
        Some(n) => t.insert(l.op.child_id, n),
        None => t.remove(l.op.child_id),
    }
}

/// The state of a replica that has applied nothing.
pub open spec fn empty_model<TM>() -> StateModel<TM> {
    StateModel { log: Seq::empty(), tree: Map::empty() }
}

/// Performs `op` on the tree of `s` and records it at the head of the log.
pub open spec fn redo_model<TM>(s: StateModel<TM>, op: OpMove<TM>) -> StateModel<TM> {
    StateModel { log: seq![log_entry(s.tree, op)] + s.log, tree: do_tree(s.tree, op) }
}

/// Takes the newest entry off the log and undoes it on the tree.
pub open spec fn undo_model<TM>(s: StateModel<TM>) -> StateModel<TM>
    recommends
        s.log.len() > 0,
{
    StateModel { log: s.log.drop_first(), tree: undo_tree(s.tree, s.log[0]) }
}

/// The state after applying `op` to `s`. A move newer than the head of the
/// log is performed and logged; an older one undoes the head, is applied
/// beneath it, and the head is redone; one with the head's timestamp is
/// ignored.
pub open spec fn apply_model<TM>(s: StateModel<TM>, op: OpMove<TM>) -> StateModel<TM>
    decreases s.log.len(),
{
    if s.log.len() > 0 && op.timestamp == s.log[0].op.timestamp {
        s
    } else if s.log.len() > 0 && op.timestamp.before(s.log[0].op.timestamp) {
        redo_model(apply_model(undo_model(s), op), s.log[0].op)
    } else {
        redo_model(s, op)
    }
}

/// The state after applying each of `ops` in turn.
pub open spec fn apply_seq<TM>(s: StateModel<TM>, ops: Seq<OpMove<TM>>) -> StateModel<TM>
    decreases ops.len(),
{
    if ops.len() == 0 {
        s
    } else {
        apply_model(apply_seq(s, ops.drop_last()), ops.last())
    }
}

/// Redoes the moves of `undone` on `s`, the last one first.
pub open spec fn redo_stack<TM>(s: StateModel<TM>, undone: Seq<LogOpMove<TM>>) -> StateModel<TM>
    decreases undone.len(),
{
    if undone.len() == 0 {
        s
    } else {
        redo_stack(redo_model(s, undone.last().op), undone.drop_last())
    }
}

/// Every entry of the log is strictly newer than every entry after it.
pub open spec fn log_descending<TM>(log: Seq<LogOpMove<TM>>) -> bool {
    forall|i: int, j: int|
        0 <= i < j < log.len() ==> #[trigger] log[j].op.timestamp.before(#[trigger] log[i].op.timestamp)
}

/// How many entries of `log` survive truncation before `threshold`: entries
/// are dropped from the tail, the oldest end, while they are older than
/// `threshold`.
pub open spec fn kept_len<TM>(log: Seq<LogOpMove<TM>>, threshold: Clock) -> nat
    decreases log.len(),
{
    if log.len() > 0 && log.last().op.timestamp.before(threshold) {
        kept_len(log.drop_last(), threshold)
    } else {
        log.len()
    }
}

/// The entries truncation drops are all older than the threshold; on a
/// descending log, those it keeps are all at or above it.
pub proof fn lemma_kept_len<TM>(log: Seq<LogOpMove<TM>>, threshold: Clock)
    ensures
        kept_len(log, threshold) <= log.len(),
        forall|i: int|
            kept_len(log, threshold) <= i < log.len() ==> #[trigger] log[i].op.timestamp.before(
                threshold,
            ),
        log_descending(log) ==> forall|i: int|
            0 <= i < kept_len(log, threshold) ==> !#[trigger] log[i].op.timestamp.before(threshold),
    decreases log.len(),
{
    if log.len() > 0 && log.last().op.timestamp.before(threshold) {
        let prefix = log.drop_last();
        lemma_kept_len(prefix, threshold);
        assert forall|i: int|
            kept_len(log, threshold) <= i < log.len() implies #[trigger] log[i].op.timestamp.before(
            threshold,
        ) by {
            if i < prefix.len() {
                assert(prefix[i] == log[i]);
            }
        }
        if log_descending(log) {
            assert(log_descending(prefix)) by {
                assert forall|i: int, j: int|
                    0 <= i < j < prefix.len() implies #[trigger] prefix[j].op.timestamp.before(
                    #[trigger] prefix[i].op.timestamp,
                ) by {
                    assert(log[j].op.timestamp.before(log[i].op.timestamp));
                }
            }
            assert forall|i: int| 0 <= i < kept_len(log, threshold) implies !#[trigger] log[
                i
            ].op.timestamp.before(threshold) by {
                assert(prefix[i] == log[i]);
            }
        }
    } else if log.len() > 0 && log_descending(log) {
        assert forall|i: int| 0 <= i < kept_len(log, threshold) implies !#[trigger] log[
            i
        ].op.timestamp.before(threshold) by {
            if i < log.len() - 1 {
                assert(log[log.len() - 1].op.timestamp.before(log[i].op.timestamp));
            }
        }
    }
}

/// The state of one replica: its tree and the log of the moves it applied,
/// newest first.
#[derive(Debug, PartialEq, Eq)]
pub struct State<TM: TreeMeta> {
    log_op_list: Vec<LogOpMove<TM>>,
    tree: Tree<TM>,
}

impl<TM: TreeMeta> View for State<TM> {
    type V = StateModel<TM>;

    closed spec fn view(&self) -> StateModel<TM> {
        StateModel { log: self.log_op_list@, tree: self.tree@ }
    }
}

impl<TM: TreeMeta> State<TM> {
    /// The tree's children index is consistent.
    pub closed spec fn wf(&self) -> bool {
        self.tree.wf()
    }

    /// A well-formed state has finitely many nodes.
    pub proof fn lemma_wf_finite(&self)
        requires
            self.wf(),
        ensures
            self@.tree.dom().finite(),
    {
        self.tree.lemma_wf_finite();
    }

    /// An empty state: no nodes, no log.
    pub fn new() -> (r: State<TM>)
        ensures
            r.wf(),
            r@.log == Seq::<LogOpMove<TM>>::empty(),
            r@.tree == Map::<TreeId, TreeNode<TM>>::empty(),
    {
        State { log_op_list: Vec::new(), tree: Tree::new() }
    }

    /// A state made of a given log and tree.
    pub fn from_existing(log_op_list: Vec<LogOpMove<TM>>, tree: Tree<TM>) -> (r: State<TM>)
        requires
            tree.wf(),
        ensures
            r.wf(),
            r@.log == log_op_list@,
            r@.tree == tree@,
    {
        State { log_op_list, tree }
    }

    /// The tree.
    pub fn tree(&self) -> (r: &Tree<TM>)
        requires
            self.wf(),
        ensures
            r.wf(),
            r@ == self@.tree,
    {
        &self.tree
    }

    /// The tree, for changes outside the log.
    pub fn tree_mut(&mut self) -> (r: &mut Tree<TM>)
        ensures
            r@ == old(self)@.tree,
            r.wf() == old(self).wf(),
            final(self)@.log == old(self)@.log,
            final(self)@.tree == final(r)@,
            final(self).wf() == final(r).wf(),
    {
        &mut self.tree
    }

    /// The log, newest entry first.
    pub fn log(&self) -> (r: &Vec<LogOpMove<TM>>)
        ensures
            r@ == self@.log,
    {
        &self.log_op_list
    }

    /// Puts `entry` at the head of the log.
    pub fn add_log_entry(&mut self, entry: LogOpMove<TM>)
        requires
            old(self).wf(),
        ensures
            final(self).wf(),
            final(self)@.log == seq![entry] + old(self)@.log,
            final(self)@.tree == old(self)@.tree,
    {
        self.log_op_list.insert(0, entry);
        assert(self.log_op_list@ =~= seq![entry] + old(self)@.log);
    }

    /// Performs `op` on the tree, unless it is refused, and returns the log
    /// entry for it; the log itself is left as it is.
    pub fn do_op(&mut self, op: OpMove<TM>) -> (r: LogOpMove<TM>)
        requires
            old(self).wf(),
        ensures
            final(self).wf(),
            r == log_entry(old(self)@.tree, op),
            final(self)@.tree == do_tree(old(self)@.tree, op),
            final(self)@.log == old(self)@.log,
    {
        let oldp = match self.tree.find(&op.child_id) {
            Some(n) => Some(*n),
            None => None,
        };
        let log = LogOpMove::new(op, oldp);
        if op.child_id == op.parent_id || self.tree.is_ancestor(&op.parent_id, &op.child_id) {
            return log;
        }
        self.tree.add_node(op.child_id, TreeNode::new(op.parent_id, op.metadata));
        log
    }

    /// Gives the child of `log` back the record it had before the move.
    pub fn undo_op(&mut self, log: &LogOpMove<TM>)
        requires
            old(self).wf(),
        ensures
            final(self).wf(),
            final(self)@.tree == undo_tree(old(self)@.tree, *log),
            final(self)@.log == old(self)@.log,
    {
        self.tree.rm_child(&log.op.child_id);
        if let Some(oldp) = log.oldp {
            self.tree.add_node(log.op.child_id, oldp);
        }
        proof {
            if let Some(n) = log.oldp {
                assert(self@.tree =~= undo_tree(old(self)@.tree, *log));
            }
        }
    }

    /// Performs the move of `logop` again on the current tree and logs it
    /// at the head, with the child's record as it now stands.
    pub fn redo_op(&mut self, logop: &LogOpMove<TM>)
        requires
            old(self).wf(),
        ensures
            final(self).wf(),
            final(self)@ == redo_model(old(self)@, logop.op),
    {
        let op = OpMove::from_log_op_move(*logop);
        let logop2 = self.do_op(op);
        self.add_log_entry(logop2);
    }

    /// Applies `op`: moves newer than it are undone, it is performed, and
    /// they are redone, so the log stays ordered by timestamp. A move with
    /// the timestamp of one already met at its place in the log is ignored.
    pub fn apply_op(&mut self, op1: OpMove<TM>)
        requires
            old(self).wf(),
        ensures
            final(self).wf(),
            final(self)@ == apply_model(old(self)@, op1),
            log_descending(old(self)@.log) ==> log_descending(final(self)@.log),
    {
        proof {
            crate::laws::lemma_apply_keeps_order(self@, op1);
        }
        let ghost target = apply_model(self@, op1);
        let mut undone: Vec<LogOpMove<TM>> = Vec::new();
        while self.log_op_list.len() > 0 && op1.timestamp < self.log_op_list[0].op.timestamp
            invariant
                self.wf(),
                target == redo_stack(apply_model(self@, op1), undone@),
            decreases self.log_op_list.len(),
        {
            let ghost before = self@;
            let ghost us = undone@;
            assert(op1.timestamp.before(before.log[0].op.timestamp));
            let logop = self.log_op_list.remove(0);
            self.undo_op(&logop);
            assert(self@.log =~= undo_model(before).log);
            assert(apply_model(before, op1) == redo_model(apply_model(self@, op1), logop.op));
            undone.push(logop);
            assert(undone@.drop_last() =~= us);
            assert(redo_stack(apply_model(self@, op1), undone@) == redo_stack(
                apply_model(before, op1),
                us,
            ));
        }
        if self.log_op_list.len() == 0 || !(op1.timestamp == self.log_op_list[0].op.timestamp) {
            let ghost before = self@;
            let entry = self.do_op(op1);
            self.add_log_entry(entry);
            assert(self@ == redo_model(before, op1));
        }
        while undone.len() > 0
            invariant
                self.wf(),
                target == redo_stack(self@, undone@),
            decreases undone.len(),
        {
            let ghost us = undone@;
            let logop = undone.pop().unwrap();
            self.redo_op(&logop);
            assert(us.drop_last() == undone@);
        }
    }

    /// Applies each of `ops` in turn.
    pub fn apply_ops_into(&mut self, ops: Vec<OpMove<TM>>)
        requires
            old(self).wf(),
        ensures
            final(self).wf(),
            final(self)@ == apply_seq(old(self)@, ops@),
    {
        self.apply_ops(&ops);
    }

    /// Applies each of `ops` in turn.
    pub fn apply_ops(&mut self, ops: &Vec<OpMove<TM>>)
        requires
            old(self).wf(),
        ensures
            final(self).wf(),
            final(self)@ == apply_seq(old(self)@, ops@),
    {
        let mut i: usize = 0;
        while i < ops.len()
            invariant
                i <= ops.len(),
                self.wf(),
                self@ == apply_seq(old(self)@, ops@.take(i as int)),
            decreases ops.len() - i,
        {
            self.apply_op(ops[i]);
            i = i + 1;
            assert(ops@.take(i as int).drop_last() =~= ops@.take(i - 1));
        }
        assert(ops@.take(i as int) =~= ops@);
    }

    /// Drops the entries older than `timestamp` from the oldest end of the
    /// log, and tells whether any was dropped. Meant for a timestamp that is
    /// causally stable: no move older than it can still arrive.
    pub fn truncate_log_before(&mut self, timestamp: &Clock) -> (r: bool)
        requires
            old(self).wf(),
        ensures
            final(self).wf(),
            final(self)@.tree == old(self)@.tree,
            final(self)@.log == old(self)@.log.take(kept_len(old(self)@.log, *timestamp) as int),
            r == (kept_len(old(self)@.log, *timestamp) < old(self)@.log.len()),
            forall|i: int|
                final(self)@.log.len() <= i < old(self)@.log.len()
                    ==> #[trigger] old(self)@.log[i].op.timestamp.before(*timestamp),
            log_descending(old(self)@.log) ==> forall|i: int|
                0 <= i < final(self)@.log.len()
                    ==> !#[trigger] final(self)@.log[i].op.timestamp.before(*timestamp),
    {
        let ghost old_log = self@.log;
        proof {
            lemma_kept_len(old_log, *timestamp);
        }
        let len = self.log_op_list.len();
        while self.log_op_list.len() > 0 && self.log_op_list[self.log_op_list.len()
            - 1].op.timestamp < *timestamp
            invariant
                self.wf(),
                self@.tree == old(self)@.tree,
                self.log_op_list.len() <= old_log.len(),
                self@.log == old_log.take(self.log_op_list.len() as int),
                kept_len(old_log, *timestamp) == kept_len(self@.log, *timestamp),
            decreases self.log_op_list.len(),
        {
            let ghost before = self@.log;
            self.log_op_list.pop();
            assert(self@.log =~= before.drop_last());
            assert(self@.log =~= old_log.take(self.log_op_list.len() as int));
        }
        self.log_op_list.len() < len
    }

    /// Checks that the log is strictly descending by timestamp, which every
    /// state built by applying moves satisfies; the answer is then always
    /// `true`.
    pub fn check_log_is_descending(&self) -> (r: bool)
        requires
            log_descending(self@.log),
        ensures
            r == log_descending(self@.log),
    {
        let n = self.log_op_list.len();
        if n == 0 {
            return true;
        }
        let mut i: usize = 0;
        while i < n - 1
            invariant
                n == self@.log.len(),
                n > 0,
                i <= n - 1,
                log_descending(self@.log.take(i + 1)),
            decreases n - 1 - i,
        {
            if !(self.log_op_list[i + 1].op.timestamp < self.log_op_list[i].op.timestamp) {
                assert(!log_descending(self@.log)) by {
                    assert(!self@.log[i + 1].op.timestamp.before(self@.log[i as int].op.timestamp));
                }
                return false;
            }
            let ghost prev = self@.log.take(i + 1);
            i = i + 1;
            let ghost cur = self@.log.take(i + 1);
            assert forall|a: int, b: int|
                0 <= a < b < cur.len() implies #[trigger] cur[b].op.timestamp.before(
                #[trigger] cur[a].op.timestamp,
            ) by {
                if b < i {
                    assert(prev[b] == cur[b] && prev[a] == cur[a]);
                } else if a < i - 1 {
                    assert(prev[a] == cur[a] && prev[i - 1] == cur[i - 1]);
                    assert(prev[i - 1].op.timestamp.before(prev[a].op.timestamp));
                }
            }
        }
        assert(self@.log.take(n as int) =~= self@.log);
        true
    }
}

} // verus!
