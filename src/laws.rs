//! What holds of every replica: ordering of the log, convergence of replicas
//! that applied the same moves in different orders, and a tree free of
//! cycles.
use vstd::prelude::*;

use crate::logopmove::LogOpMove;
use crate::opmove::OpMove;
use crate::state::{
    move_refused, apply_model, apply_seq, do_tree, empty_model, log_descending, log_entry, redo_model, undo_model,
    undo_tree, StateModel,
};
use crate::tree::{acyclic, ancestor_at, ancestor_within, children_of, is_ancestor_of};
use crate::treenode::{TreeId, TreeNode};

verus! {

/// Undoing a move just redone restores the state it was redone on.
pub proof fn lemma_undo_redo<TM>(s: StateModel<TM>, op: OpMove<TM>)
    ensures
        undo_model(redo_model(s, op)) == s,
{
    let r = redo_model(s, op);
    assert(r.log.drop_first() =~= s.log);
    assert(undo_tree(do_tree(s.tree, op), log_entry(s.tree, op)) =~= s.tree);
}

/// Every entry that applying `op` leaves in the log is older than `bound`
/// when `op` and every entry of the log before are; and the log stays
/// strictly descending.
pub proof fn lemma_apply_keeps_order<TM>(s: StateModel<TM>, op: OpMove<TM>)
    ensures
        log_descending(s.log) ==> log_descending(apply_model(s, op).log),
        forall|bound: crate::clock::Clock|
            (op.timestamp.before(bound) && forall|i: int|
                0 <= i < s.log.len() ==> #[trigger] s.log[i].op.timestamp.before(bound)) ==> forall|
                i: int,
            |
                0 <= i < apply_model(s, op).log.len() ==> #[trigger] apply_model(
                    s,
                    op,
                ).log[i].op.timestamp.before(bound),
    decreases s.log.len(),
{
    let r = apply_model(s, op);
    if s.log.len() > 0 && op.timestamp == s.log[0].op.timestamp {
    } else if s.log.len() > 0 && op.timestamp.before(s.log[0].op.timestamp) {
        let u = undo_model(s);
        let inner = apply_model(u, op);
        lemma_apply_keeps_order(u, op);
        let h = s.log[0];
        assert(r.log == seq![log_entry(inner.tree, h.op)] + inner.log);
        assert forall|bound: crate::clock::Clock|
            (op.timestamp.before(bound) && forall|i: int|
                0 <= i < s.log.len() ==> #[trigger] s.log[i].op.timestamp.before(bound)) implies forall|
                i: int,
            | 0 <= i < r.log.len() ==> #[trigger] r.log[i].op.timestamp.before(bound) by {
            assert forall|i: int| 0 <= i < u.log.len() implies #[trigger] u.log[i].op.timestamp.before(
                bound,
            ) by {
                assert(u.log[i] == s.log[i + 1]);
            }
            assert forall|i: int| 0 <= i < r.log.len() implies #[trigger] r.log[
                i
            ].op.timestamp.before(bound) by {
                if i > 0 {
                    assert(r.log[i] == inner.log[i - 1]);
                }
            }
        }
        if log_descending(s.log) {
            assert forall|i: int| 0 <= i < u.log.len() implies #[trigger] u.log[i].op.timestamp.before(
                h.op.timestamp,
            ) by {
                assert(u.log[i] == s.log[i + 1]);
            }
            assert(log_descending(u.log)) by {
                assert forall|i: int, j: int|
                    0 <= i < j < u.log.len() implies #[trigger] u.log[j].op.timestamp.before(
                    #[trigger] u.log[i].op.timestamp,
                ) by {
                    assert(u.log[i] == s.log[i + 1] && u.log[j] == s.log[j + 1]);
                }
            }
            assert forall|i: int, j: int|
                0 <= i < j < r.log.len() implies #[trigger] r.log[j].op.timestamp.before(
                #[trigger] r.log[i].op.timestamp,
            ) by {
                assert(r.log[j] == inner.log[j - 1]);
                if i > 0 {
                    assert(r.log[i] == inner.log[i - 1]);
                }
            }
        }
    } else {
        assert(r.log == seq![log_entry(s.tree, op)] + s.log);
        if s.log.len() > 0 {
            assert(s.log[0].op.timestamp.before(op.timestamp));
        }
        if log_descending(s.log) {
            assert forall|i: int, j: int|
                0 <= i < j < r.log.len() implies #[trigger] r.log[j].op.timestamp.before(
                #[trigger] r.log[i].op.timestamp,
            ) by {
                assert(r.log[j] == s.log[j - 1]);
                if i > 0 {
                    assert(r.log[i] == s.log[i - 1]);
                } else if j > 1 {
                    assert(s.log[j - 1].op.timestamp.before(s.log[0].op.timestamp));
                }
            }
        }
        assert forall|bound: crate::clock::Clock|
            (op.timestamp.before(bound) && forall|i: int|
                0 <= i < s.log.len() ==> #[trigger] s.log[i].op.timestamp.before(bound)) implies forall|
                i: int,
            | 0 <= i < r.log.len() ==> #[trigger] r.log[i].op.timestamp.before(bound) by {
            assert forall|i: int| 0 <= i < r.log.len() implies #[trigger] r.log[
                i
            ].op.timestamp.before(bound) by {
                if i > 0 {
                    assert(r.log[i] == s.log[i - 1]);
                }
            }
        }
    }
}

/// Applying a move to a state whose log is strictly descending by timestamp
/// leaves it strictly descending.
pub proof fn lemma_apply_keeps_log_descending<TM>(s: StateModel<TM>, op: OpMove<TM>)
    requires
        log_descending(s.log),
    ensures
        log_descending(apply_model(s, op).log),
{
    lemma_apply_keeps_order(s, op);
}

/// The log of every state reached from the empty state by applying moves is
/// strictly descending by timestamp.
pub proof fn lemma_reachable_log_descending<TM>(ops: Seq<OpMove<TM>>)
    ensures
        log_descending(apply_seq(empty_model(), ops).log),
    decreases ops.len(),
{
    if ops.len() > 0 {
        lemma_reachable_log_descending(ops.drop_last());
        lemma_apply_keeps_log_descending(apply_seq(empty_model(), ops.drop_last()), ops.last());
    }
}

/// Two moves with distinct timestamps, the first older, commute.
proof fn lemma_commute_ordered<TM>(s: StateModel<TM>, o1: OpMove<TM>, o2: OpMove<TM>)
    requires
        o1.timestamp.before(o2.timestamp),
    ensures
        apply_model(apply_model(s, o1), o2) == apply_model(apply_model(s, o2), o1),
    decreases s.log.len(),
{
    if s.log.len() > 0 && o1.timestamp.before(s.log[0].op.timestamp) {
        let h = s.log[0];
        let u = undo_model(s);
        let r1 = apply_model(s, o1);
        assert(r1 == redo_model(apply_model(u, o1), h.op));
        if o2.timestamp == h.op.timestamp {
            assert(apply_model(s, o2) == s);
        } else if o2.timestamp.before(h.op.timestamp) {
            lemma_undo_redo(apply_model(u, o1), h.op);
            lemma_undo_redo(apply_model(u, o2), h.op);
            lemma_commute_ordered(u, o1, o2);
        } else {
            let r2 = apply_model(s, o2);
            assert(r2 == redo_model(s, o2));
            lemma_undo_redo(s, o2);
        }
    } else if s.log.len() > 0 && o1.timestamp == s.log[0].op.timestamp {
        assert(apply_model(s, o1) == s);
        lemma_undo_redo(s, o2);
    } else {
        let r1 = apply_model(s, o1);
        assert(r1 == redo_model(s, o1));
        assert(apply_model(s, o2) == redo_model(s, o2));
        lemma_undo_redo(s, o2);
    }
}

/// Two moves with distinct timestamps commute: applying them in either
/// order gives the same state.
pub proof fn lemma_apply_commutes_distinct<TM>(s: StateModel<TM>, o1: OpMove<TM>, o2: OpMove<TM>)
    requires
        o1.timestamp != o2.timestamp,
    ensures
        apply_model(apply_model(s, o1), o2) == apply_model(apply_model(s, o2), o1),
{
    if o1.timestamp.before(o2.timestamp) {
        lemma_commute_ordered(s, o1, o2);
    } else {
        lemma_commute_ordered(s, o2, o1);
    }
}

/// Moves made by different actors commute: applying them in either order
/// gives the same state.
pub proof fn lemma_apply_commutes<TM>(s: StateModel<TM>, o1: OpMove<TM>, o2: OpMove<TM>)
    requires
        o1.timestamp.actor_id != o2.timestamp.actor_id,
    ensures
        apply_model(apply_model(s, o1), o2) == apply_model(apply_model(s, o2), o1),
{
    lemma_apply_commutes_distinct(s, o1, o2);
}

/// Applying `a` then `b` is applying their concatenation.
pub proof fn lemma_apply_seq_concat<TM>(s: StateModel<TM>, a: Seq<OpMove<TM>>, b: Seq<OpMove<TM>>)
    ensures
        apply_seq(s, a + b) == apply_seq(apply_seq(s, a), b),
    decreases b.len(),
{
    if b.len() == 0 {
        assert(a + b =~= a);
    } else {
        lemma_apply_seq_concat(s, a, b.drop_last());
        assert((a + b).drop_last() =~= a + b.drop_last());
        assert((a + b).last() == b.last());
    }
}

/// Applying a sequence of one move is applying that move.
proof fn lemma_apply_seq_single<TM>(s: StateModel<TM>, x: OpMove<TM>)
    ensures
        apply_seq(s, seq![x]) == apply_model(s, x),
{
    assert(seq![x].drop_last() =~= Seq::<OpMove<TM>>::empty());
    assert(seq![x].last() == x);
    assert(apply_seq(s, Seq::<OpMove<TM>>::empty()) == s);
}

/// No move of `a` has the timestamp of a move of `b`.
pub open spec fn timestamps_disjoint<TM>(a: Seq<OpMove<TM>>, b: Seq<OpMove<TM>>) -> bool {
    forall|i: int, j: int|
        0 <= i < a.len() && 0 <= j < b.len() ==> #[trigger] a[i].timestamp != #[trigger] b[j].timestamp
}

/// No move of `a` was made by the actor of a move of `b`.
pub open spec fn actors_disjoint<TM>(a: Seq<OpMove<TM>>, b: Seq<OpMove<TM>>) -> bool {
    forall|i: int, j: int|
        0 <= i < a.len() && 0 <= j < b.len() ==> #[trigger] a[i].timestamp.actor_id
            != #[trigger] b[j].timestamp.actor_id
}

/// A move commutes with a sequence of moves none of which shares its
/// timestamp.
proof fn lemma_op_commutes_seq<TM>(s: StateModel<TM>, o: OpMove<TM>, l: Seq<OpMove<TM>>)
    requires
        forall|j: int| 0 <= j < l.len() ==> #[trigger] l[j].timestamp != o.timestamp,
    ensures
        apply_model(apply_seq(s, l), o) == apply_seq(apply_model(s, o), l),
    decreases l.len(),
{
    if l.len() > 0 {
        let init = l.drop_last();
        let x = l.last();
        assert(x == l[l.len() - 1]);
        assert forall|j: int| 0 <= j < init.len() implies #[trigger] init[j].timestamp
            != o.timestamp by {
            assert(init[j] == l[j]);
        }
        lemma_op_commutes_seq(s, o, init);
        lemma_apply_commutes_distinct(apply_seq(s, init), x, o);
    }
}

/// Two sequences of moves with no timestamp in common can be applied in
/// either order with the same result.
pub proof fn lemma_apply_seq_swap_distinct<TM>(
    s: StateModel<TM>,
    a: Seq<OpMove<TM>>,
    b: Seq<OpMove<TM>>,
)
    requires
        timestamps_disjoint(a, b),
    ensures
        apply_seq(s, a + b) == apply_seq(s, b + a),
    decreases a.len(),
{
    if a.len() == 0 {
        assert(a + b =~= b);
        assert(b + a =~= b);
    } else {
        let init = a.drop_last();
        let x = a.last();
        assert(timestamps_disjoint(init, b)) by {
            assert forall|i: int, j: int|
                0 <= i < init.len() && 0 <= j < b.len() implies #[trigger] init[i].timestamp
                != #[trigger] b[j].timestamp by {
                assert(init[i] == a[i]);
            }
        }
        lemma_apply_seq_swap_distinct(s, init, b);
        assert forall|j: int| 0 <= j < b.len() implies #[trigger] b[j].timestamp != x.timestamp by {
            assert(x == a[a.len() - 1]);
        }
        lemma_apply_seq_concat(s, init, b);
        lemma_apply_seq_concat(s, a, b);
        lemma_apply_seq_concat(s, b, init);
        lemma_apply_seq_concat(s, b, a);
        assert(init.push(x) =~= a);
        lemma_apply_seq_concat(s, init, seq![x]);
        lemma_apply_seq_single(apply_seq(s, init), x);
        lemma_op_commutes_seq(apply_seq(s, init), x, b);
        assert(b + a =~= (b + init) + seq![x]);
        lemma_apply_seq_concat(s, b + init, seq![x]);
        lemma_apply_seq_single(apply_seq(s, b + init), x);
    }
}

/// Replicas that apply two sequences of moves from different actors, in
/// either order, reach the same state.
pub proof fn lemma_apply_seq_commutes<TM>(s: StateModel<TM>, a: Seq<OpMove<TM>>, b: Seq<OpMove<TM>>)
    requires
        actors_disjoint(a, b),
    ensures
        apply_seq(apply_seq(s, a), b) == apply_seq(apply_seq(s, b), a),
{
    assert(timestamps_disjoint(a, b)) by {
        assert forall|i: int, j: int|
            0 <= i < a.len() && 0 <= j < b.len() implies #[trigger] a[i].timestamp
            != #[trigger] b[j].timestamp by {
            assert(a[i].timestamp.actor_id != b[j].timestamp.actor_id);
        }
    }
    lemma_apply_seq_swap_distinct(s, a, b);
    lemma_apply_seq_concat(s, a, b);
    lemma_apply_seq_concat(s, b, a);
}

/// Grouping does not matter: applying `a`, then `b`, then `c` gives the
/// same state as applying `b`, then `c`, then `a`, when the moves of `a`
/// come from actors other than those of `b` and `c`.
pub proof fn lemma_apply_seq_associative<TM>(
    s: StateModel<TM>,
    a: Seq<OpMove<TM>>,
    b: Seq<OpMove<TM>>,
    c: Seq<OpMove<TM>>,
)
    requires
        actors_disjoint(a, b),
        actors_disjoint(a, c),
    ensures
        apply_seq(apply_seq(apply_seq(s, a), b), c) == apply_seq(
            apply_seq(apply_seq(s, b), c),
            a,
        ),
{
    assert(actors_disjoint(a, b + c)) by {
        assert forall|i: int, j: int|
            0 <= i < a.len() && 0 <= j < (b + c).len() implies #[trigger] a[i].timestamp.actor_id
            != #[trigger] (b + c)[j].timestamp.actor_id by {
            if j < b.len() {
                assert((b + c)[j] == b[j]);
                assert(a[i].timestamp.actor_id != b[j].timestamp.actor_id);
            } else {
                assert((b + c)[j] == c[j - b.len()]);
                assert(a[i].timestamp.actor_id != c[j - b.len()].timestamp.actor_id);
            }
        }
    }
    lemma_apply_seq_commutes(s, a, b + c);
    lemma_apply_seq_concat(apply_seq(s, a), b, c);
    lemma_apply_seq_concat(s, b, c);
}

/// Following `i` links and then `j` more is following `i + j` links.
proof fn lemma_ancestor_at_compose<TM>(t: Map<TreeId, TreeNode<TM>>, x: TreeId, i: nat, j: nat)
    requires
        ancestor_at(t, x, i) is Some,
    ensures
        ancestor_at(t, x, i + j) == ancestor_at(t, ancestor_at(t, x, i)->0, j),
    decreases i,
{
    if i > 0 {
        lemma_ancestor_at_compose(t, t[x].parent_id, (i - 1) as nat, j);
        assert((i + j - 1) as nat == (i - 1) as nat + j);
    }
}

/// A chain of `k` links passes through nodes of the tree at each of its
/// first `k` positions.
proof fn lemma_ancestor_at_prefix<TM>(t: Map<TreeId, TreeNode<TM>>, x: TreeId, i: nat, k: nat)
    requires
        ancestor_at(t, x, k) is Some,
        i < k,
    ensures
        ancestor_at(t, x, i) is Some,
        t.contains_key(ancestor_at(t, x, i)->0),
    decreases i,
{
    if i > 0 {
        lemma_ancestor_at_prefix(t, t[x].parent_id, (i - 1) as nat, (k - 1) as nat);
    }
}

/// The bounded walk meets `a` exactly when some chain of at most `n` links,
/// and at least one, ends at `a`.
proof fn lemma_within_from_chain<TM>(
    t: Map<TreeId, TreeNode<TM>>,
    x: TreeId,
    a: TreeId,
    k: nat,
    n: nat,
)
    requires
        1 <= k <= n,
        ancestor_at(t, x, k) == Some(a),
    ensures
        ancestor_within(t, x, a, n),
    decreases k,
{
    assert(t.contains_key(x));
    if k == 1 {
        assert(ancestor_at(t, t[x].parent_id, 0) == Some(t[x].parent_id));
    } else if t[x].parent_id != a {
        lemma_within_from_chain(t, t[x].parent_id, a, (k - 1) as nat, (n - 1) as nat);
    }
}

/// In a tree without cycles, a node reached by some chain from `x` is met
/// by the walk up from `x` bounded by the number of nodes.
proof fn lemma_chain_within_bound<TM>(t: Map<TreeId, TreeNode<TM>>, x: TreeId, a: TreeId, k: nat)
    requires
        acyclic(t),
        t.dom().finite(),
        k >= 1,
        ancestor_at(t, x, k) == Some(a),
    ensures
        is_ancestor_of(t, x, a),
{
    let nodes = Seq::new(k, |i: int| ancestor_at(t, x, i as nat)->0);
    assert forall|i: int| 0 <= i < k implies #[trigger] ancestor_at(t, x, i as nat) is Some
        && t.contains_key(nodes[i]) by {
        lemma_ancestor_at_prefix(t, x, i as nat, k);
    }
    assert(nodes.no_duplicates()) by {
        assert forall|i: int, j: int| 0 <= i < j < k implies nodes[i] != nodes[j] by {
            lemma_ancestor_at_prefix(t, x, i as nat, k);
            lemma_ancestor_at_prefix(t, x, j as nat, k);
            lemma_ancestor_at_compose(t, x, i as nat, (j - i) as nat);
            assert(ancestor_at(t, nodes[i], (j - i) as nat) != Some(nodes[i]));
        }
    }
    nodes.unique_seq_to_set();
    assert(nodes.to_set().subset_of(t.dom())) by {
        assert forall|y: TreeId| nodes.to_set().contains(y) implies t.dom().contains(y) by {
            let i = choose|i: int| 0 <= i < nodes.len() && nodes[i] == y;
            assert(t.contains_key(nodes[i]));
        }
    }
    vstd::set_lib::lemma_len_subset(nodes.to_set(), t.dom());
    lemma_within_from_chain(t, x, a, k, t.dom().len());
}

/// A chain in `t.insert(c, ..)` that starts away from `c` and never steps
/// from `c` is the same chain in `t`; else it reaches `c`.
proof fn lemma_chain_after_move<TM>(
    t: Map<TreeId, TreeNode<TM>>,
    c: TreeId,
    n: TreeNode<TM>,
    y: TreeId,
    j: nat,
    z: TreeId,
)
    requires
        y != c,
        ancestor_at(t.insert(c, n), y, j) == Some(z),
    ensures
        ancestor_at(t, y, j) == Some(z) || exists|i: nat|
            1 <= i <= j && #[trigger] ancestor_at(t.insert(c, n), y, i) == Some(c),
    decreases j,
{
    let t2 = t.insert(c, n);
    if j > 0 {
        let y2 = t[y].parent_id;
        assert(t2[y] == t[y]);
        if y2 == c {
            assert(ancestor_at(t2, c, 0) == Some(c));
            assert(ancestor_at(t2, y, 1) == Some(c));
        } else {
            lemma_chain_after_move(t, c, n, y2, (j - 1) as nat, z);
            if ancestor_at(t, y2, (j - 1) as nat) != Some(z) {
                let i = choose|i: nat|
                    1 <= i <= j - 1 && #[trigger] ancestor_at(t2, y2, i) == Some(c);
                assert(ancestor_at(t2, y, i + 1) == Some(c));
            }
        }
    }
}

/// A chain in `t.insert(c, ..)` from `y` to `c` gives one in `t`.
proof fn lemma_chain_to_moved<TM>(
    t: Map<TreeId, TreeNode<TM>>,
    c: TreeId,
    n: TreeNode<TM>,
    y: TreeId,
    j: nat,
)
    requires
        y != c,
        ancestor_at(t.insert(c, n), y, j) == Some(c),
    ensures
        exists|i: nat| i >= 1 && #[trigger] ancestor_at(t, y, i) == Some(c),
    decreases j,
{
    let t2 = t.insert(c, n);
    let y2 = t[y].parent_id;
    assert(t2[y] == t[y]);
    if y2 == c {
        assert(ancestor_at(t, c, 0) == Some(c));
        assert(ancestor_at(t, y, 1) == Some(c));
    } else {
        lemma_chain_to_moved(t, c, n, y2, (j - 1) as nat);
        let i = choose|i: nat| i >= 1 && #[trigger] ancestor_at(t, y2, i) == Some(c);
        assert(ancestor_at(t, y, i + 1) == Some(c));
    }
}

/// A move that is not refused keeps a tree free of cycles.
pub proof fn lemma_do_keeps_acyclic<TM>(t: Map<TreeId, TreeNode<TM>>, op: OpMove<TM>)
    requires
        acyclic(t),
        t.dom().finite(),
    ensures
        acyclic(do_tree(t, op)),
{
    if !move_refused(t, op) {
        let c = op.child_id;
        let p = op.parent_id;
        let n = TreeNode { parent_id: p, metadata: op.metadata };
        let t2 = t.insert(c, n);
        assert(do_tree(t, op) == t2);
        // A cycle through `c` in the new tree would make `c` an ancestor of `p`.
        assert forall|k: nat| k > 0 implies #[trigger] ancestor_at(t2, c, k) != Some(c) by {
            if ancestor_at(t2, c, k) == Some(c) {
                assert(ancestor_at(t2, p, (k - 1) as nat) == Some(c));
                lemma_chain_to_moved(t, c, n, p, (k - 1) as nat);
                let i = choose|i: nat| i >= 1 && #[trigger] ancestor_at(t, p, i) == Some(c);
                lemma_chain_within_bound(t, p, c, i);
            }
        }
        assert forall|x: TreeId, k: nat| k > 0 implies #[trigger] ancestor_at(t2, x, k) != Some(
            x,
        ) by {
            if x != c && ancestor_at(t2, x, k) == Some(x) {
                lemma_chain_after_move(t, c, n, x, k, x);
                if ancestor_at(t, x, k) != Some(x) {
                    let i = choose|i: nat| 1 <= i <= k && #[trigger] ancestor_at(t2, x, i) == Some(c);
                    if i == k {
                    } else {
                        lemma_ancestor_at_compose(t2, x, i, k);
                        lemma_ancestor_at_compose(t2, x, k, i);
                        assert(i + k == k + i);
                        assert(ancestor_at(t2, c, k) == Some(c));
                    }
                }
            }
        }
    }
}

/// The log explains the tree: undoing the entries one by one, newest first,
/// retraces trees each of which the next entry, performed, turns into the
/// one above it, down to a finite tree without cycles.
pub open spec fn replayable<TM>(s: StateModel<TM>) -> bool
    decreases s.log.len(),
{
    if s.log.len() == 0 {
        acyclic(s.tree) && s.tree.dom().finite()
    } else {
        let prev = undo_model(s);
        &&& replayable(prev)
        &&& s.log[0] == log_entry(prev.tree, s.log[0].op)
        &&& s.tree == do_tree(prev.tree, s.log[0].op)
    }
}

/// A replayable state has a finite tree without cycles.
pub proof fn lemma_replayable_acyclic<TM>(s: StateModel<TM>)
    requires
        replayable(s),
    ensures
        acyclic(s.tree),
        s.tree.dom().finite(),
    decreases s.log.len(),
{
    if s.log.len() > 0 {
        let prev = undo_model(s);
        lemma_replayable_acyclic(prev);
        lemma_do_keeps_acyclic(prev.tree, s.log[0].op);
    }
}

/// Performing and logging a move keeps a state replayable.
proof fn lemma_redo_replayable<TM>(s: StateModel<TM>, op: OpMove<TM>)
    requires
        replayable(s),
    ensures
        replayable(redo_model(s, op)),
{
    lemma_undo_redo(s, op);
}

/// Applying a move keeps a state replayable.
pub proof fn lemma_apply_replayable<TM>(s: StateModel<TM>, op: OpMove<TM>)
    requires
        replayable(s),
    ensures
        replayable(apply_model(s, op)),
    decreases s.log.len(),
{
    if s.log.len() > 0 && op.timestamp == s.log[0].op.timestamp {
    } else if s.log.len() > 0 && op.timestamp.before(s.log[0].op.timestamp) {
        let u = undo_model(s);
        lemma_apply_replayable(u, op);
        lemma_redo_replayable(apply_model(u, op), s.log[0].op);
    } else {
        lemma_redo_replayable(s, op);
    }
}

/// Every state reached from the empty state by applying moves is
/// replayable.
pub proof fn lemma_reachable_replayable<TM>(ops: Seq<OpMove<TM>>)
    ensures
        replayable(apply_seq(empty_model(), ops)),
    decreases ops.len(),
{
    if ops.len() == 0 {
        let e = empty_model::<TM>();
        assert forall|x: TreeId, k: nat| k > 0 implies #[trigger] ancestor_at(e.tree, x, k) != Some(
            x,
        ) by {}
    } else {
        lemma_reachable_replayable(ops.drop_last());
        lemma_apply_replayable(apply_seq(empty_model(), ops.drop_last()), ops.last());
    }
}

/// The tree of every state reached from the empty state by applying moves
/// has no cycle: no node is its own ancestor.
pub proof fn lemma_reachable_acyclic<TM>(ops: Seq<OpMove<TM>>)
    ensures
        acyclic(apply_seq(empty_model(), ops).tree),
        forall|x: TreeId| !is_ancestor_of(apply_seq(empty_model(), ops).tree, x, x),
{
    let t = apply_seq(empty_model::<TM>(), ops).tree;
    lemma_reachable_replayable(ops);
    lemma_replayable_acyclic(apply_seq(empty_model(), ops));
    assert forall|x: TreeId| !is_ancestor_of(t, x, x) by {
        if is_ancestor_of(t, x, x) {
            lemma_chain_from_within(t, x, x, t.dom().len());
        }
    }
}

/// Dropping the oldest entries of the log keeps a state replayable, so a
/// replica that truncates its log still has a tree without cycles.
pub proof fn lemma_truncate_keeps_replayable<TM>(s: StateModel<TM>, k: nat)
    requires
        replayable(s),
        k <= s.log.len(),
    ensures
        replayable(StateModel { log: s.log.take(k as int), tree: s.tree }),
        acyclic(s.tree),
    decreases s.log.len(),
{
    lemma_replayable_acyclic(s);
    let t = StateModel { log: s.log.take(k as int), tree: s.tree };
    if k > 0 {
        let u = undo_model(s);
        lemma_truncate_keeps_replayable(u, (k - 1) as nat);
        assert(undo_model(t).log =~= u.log.take(k - 1));
        assert(undo_model(t).tree == u.tree);
    }
}

/// When the bounded walk meets `a`, some chain of at least one link ends
/// at `a`.
pub proof fn lemma_chain_from_within<TM>(t: Map<TreeId, TreeNode<TM>>, x: TreeId, a: TreeId, n: nat)
    requires
        ancestor_within(t, x, a, n),
    ensures
        exists|k: nat| k >= 1 && #[trigger] ancestor_at(t, x, k) == Some(a),
    decreases n,
{
    let y = t[x].parent_id;
    if y == a {
        assert(ancestor_at(t, a, 0) == Some(a));
        assert(ancestor_at(t, x, 1) == Some(a));
    } else {
        lemma_chain_from_within(t, y, a, (n - 1) as nat);
        let k = choose|k: nat| k >= 1 && #[trigger] ancestor_at(t, y, k) == Some(a);
        assert(ancestor_at(t, x, k + 1) == Some(a));
    }
}

/// Each node of the tree is among the children of exactly one parent: the
/// one its record names.
pub proof fn lemma_parent_unique<TM>(t: Map<TreeId, TreeNode<TM>>, c: TreeId, p: TreeId)
    requires
        t.contains_key(c),
    ensures
        children_of(t, p).contains(c) <==> p == t[c].parent_id,
{
}

/// The log holds an entry with timestamp `t`.
pub open spec fn log_has<TM>(log: Seq<LogOpMove<TM>>, t: crate::clock::Clock) -> bool {
    exists|i: int| 0 <= i < log.len() && #[trigger] log[i].op.timestamp == t
}

/// Applying a move adds its timestamp to those of the log, and no other.
pub proof fn lemma_apply_timestamps<TM>(s: StateModel<TM>, op: OpMove<TM>)
    ensures
        forall|t: crate::clock::Clock|
            #[trigger] log_has(apply_model(s, op).log, t) <==> (log_has(s.log, t) || t
                == op.timestamp),
    decreases s.log.len(),
{
    let r = apply_model(s, op);
    if s.log.len() > 0 && op.timestamp == s.log[0].op.timestamp {
        assert forall|t: crate::clock::Clock| #[trigger]
            log_has(r.log, t) <==> (log_has(s.log, t) || t == op.timestamp) by {
            if t == op.timestamp {
                assert(s.log[0].op.timestamp == t);
            }
        }
    } else if s.log.len() > 0 && op.timestamp.before(s.log[0].op.timestamp) {
        let u = undo_model(s);
        let inner = apply_model(u, op);
        lemma_apply_timestamps(u, op);
        assert(r == redo_model(inner, s.log[0].op));
        assert(r.log.len() == inner.log.len() + 1);
        assert(forall|j: int| 0 <= j < inner.log.len() ==> r.log[j + 1] == inner.log[j]);
        assert(r.log[0].op.timestamp == s.log[0].op.timestamp);
        assert forall|t: crate::clock::Clock| #[trigger]
            log_has(r.log, t) <==> (log_has(s.log, t) || t == op.timestamp) by {
            if log_has(r.log, t) {
                let i = choose|i: int| 0 <= i < r.log.len() && #[trigger] r.log[i].op.timestamp == t;
                if i == 0 {
                    assert(s.log[0].op.timestamp == t);
                } else {
                    assert(r.log[i] == inner.log[i - 1]);
                    assert(log_has(inner.log, t));
                    if log_has(u.log, t) {
                        let j = choose|j: int|
                            0 <= j < u.log.len() && #[trigger] u.log[j].op.timestamp == t;
                        assert(s.log[j + 1].op.timestamp == t);
                    }
                }
            }
            if log_has(s.log, t) {
                let i = choose|i: int| 0 <= i < s.log.len() && #[trigger] s.log[i].op.timestamp == t;
                if i == 0 {
                    assert(r.log[0].op.timestamp == t);
                } else {
                    assert(u.log[i - 1].op.timestamp == t);
                    assert(log_has(u.log, t));
                    assert(log_has(inner.log, t));
                    let j = choose|j: int|
                        0 <= j < inner.log.len() && #[trigger] inner.log[j].op.timestamp == t;
                    assert(r.log[j + 1].op.timestamp == t);
                }
            }
            if t == op.timestamp {
                assert(log_has(inner.log, t));
                let j = choose|j: int|
                    0 <= j < inner.log.len() && #[trigger] inner.log[j].op.timestamp == t;
                assert(r.log[j + 1].op.timestamp == t);
            }
        }
    } else {
        assert forall|t: crate::clock::Clock| #[trigger]
            log_has(r.log, t) <==> (log_has(s.log, t) || t == op.timestamp) by {
            if log_has(r.log, t) {
                let i = choose|i: int| 0 <= i < r.log.len() && #[trigger] r.log[i].op.timestamp == t;
                if i > 0 {
                    assert(s.log[i - 1].op.timestamp == t);
                }
            }
            if log_has(s.log, t) {
                let i = choose|i: int| 0 <= i < s.log.len() && #[trigger] s.log[i].op.timestamp == t;
                assert(r.log[i + 1].op.timestamp == t);
            }
            if t == op.timestamp {
                assert(r.log[0].op.timestamp == t);
            }
        }
    }
}

/// Applying a move whose timestamp a replayable, descending log already
/// holds leaves the state unchanged.
pub proof fn lemma_apply_seen_is_noop<TM>(s: StateModel<TM>, op: OpMove<TM>)
    requires
        replayable(s),
        log_descending(s.log),
        log_has(s.log, op.timestamp),
    ensures
        apply_model(s, op) == s,
    decreases s.log.len(),
{
    let i = choose|i: int| 0 <= i < s.log.len() && #[trigger] s.log[i].op.timestamp == op.timestamp;
    if op.timestamp == s.log[0].op.timestamp {
    } else if op.timestamp.before(s.log[0].op.timestamp) {
        let u = undo_model(s);
        assert(u.log[i - 1].op.timestamp == op.timestamp);
        assert(log_descending(u.log)) by {
            assert forall|a: int, b: int|
                0 <= a < b < u.log.len() implies #[trigger] u.log[b].op.timestamp.before(
                #[trigger] u.log[a].op.timestamp,
            ) by {
                assert(u.log[a] == s.log[a + 1] && u.log[b] == s.log[b + 1]);
            }
        }
        lemma_apply_seen_is_noop(u, op);
        let r = redo_model(u, s.log[0].op);
        assert(r.log =~= s.log);
    } else {
        assert(s.log[i].op.timestamp.before(s.log[0].op.timestamp));
    }
}

/// After applying `ops`, the log holds the timestamp of each of them.
proof fn lemma_apply_seq_records<TM>(s: StateModel<TM>, ops: Seq<OpMove<TM>>)
    ensures
        forall|t: crate::clock::Clock| log_has(s.log, t) ==> #[trigger] log_has(apply_seq(s, ops).log, t),
        forall|k: int| 0 <= k < ops.len() ==> log_has(apply_seq(s, ops).log, #[trigger] ops[k].timestamp),
    decreases ops.len(),
{
    if ops.len() > 0 {
        let init = ops.drop_last();
        lemma_apply_seq_records(s, init);
        lemma_apply_timestamps(apply_seq(s, init), ops.last());
        assert forall|k: int| 0 <= k < ops.len() implies log_has(
            apply_seq(s, ops).log,
            #[trigger] ops[k].timestamp,
        ) by {
            if k < init.len() {
                assert(init[k] == ops[k]);
            }
        }
    }
}

/// Applying moves that a replayable, descending state has all seen leaves
/// it unchanged.
proof fn lemma_reapply_seen<TM>(s: StateModel<TM>, ops: Seq<OpMove<TM>>)
    requires
        replayable(s),
        log_descending(s.log),
        forall|k: int| 0 <= k < ops.len() ==> log_has(s.log, #[trigger] ops[k].timestamp),
    ensures
        apply_seq(s, ops) == s,
    decreases ops.len(),
{
    if ops.len() > 0 {
        let init = ops.drop_last();
        assert forall|k: int| 0 <= k < init.len() implies log_has(s.log, #[trigger] init[k].timestamp) by {
            assert(init[k] == ops[k]);
        }
        lemma_reapply_seen(s, init);
        assert(log_has(s.log, ops[ops.len() - 1].timestamp));
        lemma_apply_seen_is_noop(s, ops.last());
    }
}

/// Applying a sequence of moves a second time changes nothing: a replica
/// that received the same moves twice holds the state it held after the
/// first time.
pub proof fn lemma_apply_idempotent<TM>(ops: Seq<OpMove<TM>>)
    ensures
        apply_seq(apply_seq(empty_model(), ops), ops) == apply_seq(empty_model(), ops),
{
    let s = apply_seq(empty_model::<TM>(), ops);
    lemma_reachable_replayable(ops);
    lemma_reachable_log_descending(ops);
    lemma_apply_seq_records(empty_model(), ops);
    lemma_reapply_seen(s, ops);
}

} // verus!
