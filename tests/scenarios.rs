use crdt_tree::{Clock, LogOpMove, OpMove, Replica, State, Tree, TreeNode};

type Meta = &'static str;

fn ts(counter: u64, actor: u64) -> Clock {
    Clock::new(actor, Some(counter))
}

fn nodes(t: &Tree<Meta>, ids: &[u64]) -> Vec<(u64, Option<u64>)> {
    ids.iter().map(|id| (*id, t.find(id).map(|n| *n.parent_id()))).collect()
}

fn no_cycles(t: &Tree<Meta>, ids: &[u64]) -> bool {
    ids.iter().all(|id| !t.is_ancestor(id, id))
}

// Every node appears in the children of its own parent and of no other.
fn parent_unique(t: &Tree<Meta>, ids: &[u64]) -> bool {
    for id in ids {
        if let Some(n) = t.find(id) {
            for p in ids.iter().chain([0u64].iter()) {
                let listed = t.children(p).contains(id);
                if listed != (*p == *n.parent_id()) {
                    return false;
                }
            }
        }
    }
    true
}

fn log_timestamps(s: &State<Meta>) -> Vec<Clock> {
    s.log().iter().map(|l| *l.timestamp()).collect()
}

fn initial_ops() -> Vec<OpMove<Meta>> {
    vec![
        OpMove::new(ts(1, 1), 0, "root", 10),
        OpMove::new(ts(2, 1), 10, "a", 11),
        OpMove::new(ts(3, 1), 10, "b", 12),
        OpMove::new(ts(4, 1), 10, "c", 13),
    ]
}

#[test]
fn concurrent_moves_larger_actor_wins() {
    let mut r1: State<Meta> = State::new();
    let mut r2: State<Meta> = State::new();
    r1.apply_ops(&initial_ops());
    r2.apply_ops(&initial_ops());
    let r1_op = OpMove::new(ts(5, 1), 12, "a", 11);
    let r2_op = OpMove::new(ts(5, 2), 13, "a", 11);
    r1.apply_op(r1_op);
    r1.apply_op(r2_op);
    r2.apply_op(r2_op);
    r2.apply_op(r1_op);
    assert_eq!(r1, r2);
    assert_eq!(*r1.tree().find(&11).unwrap().parent_id(), 13);
    assert!(r1.check_log_is_descending());
}

#[test]
fn concurrent_cycle_moves_one_wins() {
    let init = vec![
        OpMove::new(ts(1, 1), 0, "root", 10),
        OpMove::new(ts(2, 1), 10, "a", 11),
        OpMove::new(ts(3, 1), 10, "b", 12),
        OpMove::new(ts(4, 1), 11, "c", 13),
    ];
    let mut r1: State<Meta> = State::new();
    let mut r2: State<Meta> = State::new();
    r1.apply_ops(&init);
    r2.apply_ops(&init);
    let r1_op = OpMove::new(ts(5, 1), 11, "b", 12);
    let r2_op = OpMove::new(ts(5, 2), 12, "a", 11);
    r1.apply_op(r1_op);
    r1.apply_op(r2_op);
    r2.apply_op(r2_op);
    r2.apply_op(r1_op);
    assert_eq!(r1, r2);
    let ids = [10, 11, 12, 13];
    assert!(no_cycles(r1.tree(), &ids));
    // b moved under a; a stays under root
    assert_eq!(
        nodes(r1.tree(), &ids),
        vec![(10, Some(0)), (11, Some(10)), (12, Some(11)), (13, Some(11))]
    );
    assert!(parent_unique(r1.tree(), &ids));
}

#[test]
fn out_of_order_arrival_matches_in_order() {
    let o1 = OpMove::new(ts(1, 1), 0, "x", 1);
    let o2 = OpMove::new(ts(2, 1), 1, "y", 2);
    let o3 = OpMove::new(ts(3, 1), 2, "x", 1);
    let mut late: State<Meta> = State::new();
    late.apply_op(o1);
    late.apply_op(o3);
    late.apply_op(o2);
    let mut ordered: State<Meta> = State::new();
    ordered.apply_op(o1);
    ordered.apply_op(o2);
    ordered.apply_op(o3);
    assert_eq!(late.tree(), ordered.tree());
    assert_eq!(late, ordered);
    assert_eq!(log_timestamps(&late), vec![ts(3, 1), ts(2, 1), ts(1, 1)]);
    // the move of 1 under 2 would make a cycle: refused
    assert_eq!(*late.tree().find(&1).unwrap().parent_id(), 0);
}

#[test]
fn self_move_rejected() {
    let mut s: State<Meta> = State::new();
    s.apply_op(OpMove::new(ts(1, 1), 0, "x", 5));
    let before = nodes(s.tree(), &[5]);
    s.apply_op(OpMove::new(ts(2, 1), 5, "m", 5));
    assert_eq!(nodes(s.tree(), &[5]), before);
    assert_eq!(*s.tree().find(&5).unwrap().metadata(), "x");
    assert_eq!(s.log().len(), 2);
    let entry = s.log()[0];
    assert_eq!(*entry.oldp(), Some(TreeNode::new(0, "x")));
    s.undo_op(&entry);
    assert_eq!(nodes(s.tree(), &[5]), before);
    assert_eq!(*s.tree().find(&5).unwrap().metadata(), "x");
}

#[test]
fn ancestor_move_rejected() {
    let mut s: State<Meta> = State::new();
    s.apply_op(OpMove::new(ts(1, 1), 0, "root", 1));
    s.apply_op(OpMove::new(ts(2, 1), 1, "a", 2));
    s.apply_op(OpMove::new(ts(3, 1), 2, "b", 3));
    s.apply_op(OpMove::new(ts(4, 1), 3, "a", 2));
    assert_eq!(nodes(s.tree(), &[1, 2, 3]), vec![(1, Some(0)), (2, Some(1)), (3, Some(2))]);
    assert_eq!(s.log().len(), 4);
    assert_eq!(*s.log()[0].child_id(), 2);
    assert_eq!(*s.log()[0].parent_id(), 3);
    assert_eq!(*s.log()[0].oldp(), Some(TreeNode::new(1, "a")));
}

#[test]
fn duplicate_timestamp_is_ignored() {
    let mut s: State<Meta> = State::new();
    s.apply_op(OpMove::new(ts(1, 1), 0, "x", 1));
    s.apply_op(OpMove::new(ts(2, 1), 0, "y", 2));
    let copy_log = s.log().clone();
    s.apply_op(OpMove::new(ts(2, 1), 0, "z", 3));
    assert!(s.tree().find(&3).is_none());
    assert_eq!(*s.log(), copy_log);
    // an older duplicate, below the head, is ignored too
    s.apply_op(OpMove::new(ts(1, 1), 0, "z", 3));
    assert!(s.tree().find(&3).is_none());
    assert_eq!(*s.log(), copy_log);
}

#[test]
fn log_truncation_after_causal_stability() {
    let mut r1: Replica<Meta> = Replica::new(1);
    let mut r2: Replica<Meta> = Replica::new(2);
    assert_eq!(r1.causally_stable_threshold(), None);
    assert!(!r1.truncate_log());

    let ops1 = vec![
        OpMove::new(r1.tick(), 0, "root", 100),
        OpMove::new(r1.tick(), 100, "a", 101),
        OpMove::new(r1.tick(), 100, "b", 102),
    ];
    r1.apply_ops(&ops1);
    let ops2 = vec![OpMove::new(r2.tick(), 100, "c", 103)];
    r2.apply_ops(&ops2);
    r2.apply_ops(&ops1);
    r1.apply_ops(&ops2);

    assert_eq!(r1.state(), r2.state());
    // latest seen: actor 1 at 3, actor 2 at 1
    assert_eq!(r1.causally_stable_threshold(), Some(ts(1, 2)));
    assert_eq!(r2.causally_stable_threshold(), Some(ts(1, 2)));

    assert!(r1.truncate_log());
    assert!(r2.truncate_log());
    for r in [&r1, &r2] {
        let kept = log_timestamps(r.state());
        assert_eq!(kept, vec![ts(3, 1), ts(2, 1), ts(1, 2)]);
        assert!(kept.iter().all(|t| !(*t < ts(1, 2))));
    }
    assert_eq!(r1.tree(), r2.tree());
    assert_eq!(r1.state(), r2.state());
    assert!(!r1.truncate_log());

    // the local clock caught up with what it saw
    let next = r2.tick();
    assert_eq!(next, ts(4, 2));
    assert_eq!(*r2.id(), 2);
}

#[test]
fn truncate_log_before_threshold() {
    let mut s: State<Meta> = State::new();
    assert!(!s.truncate_log_before(&ts(5, 1)));
    for i in 1..=5u64 {
        s.apply_op(OpMove::new(ts(i, 1), 0, "n", i));
    }
    assert!(s.truncate_log_before(&ts(3, 1)));
    assert_eq!(log_timestamps(&s), vec![ts(5, 1), ts(4, 1), ts(3, 1)]);
    assert!(!s.truncate_log_before(&ts(3, 1)));
    assert_eq!(s.tree().children(&0).len(), 5);
    assert!(s.truncate_log_before(&ts(9, 9)));
    assert!(s.log().is_empty());
}

fn ops_of(actor: u64, n: u64) -> Vec<OpMove<Meta>> {
    let mut clock = Clock::new(actor, None);
    let mut ops = Vec::new();
    for i in 0..n {
        let child = (actor * 7 + i * 3) % 9 + 1;
        let parent = (actor + i * 5) % 10;
        ops.push(OpMove::new(clock.tick(), parent, "m", child));
    }
    ops
}

fn from_ops(ops: &[Vec<OpMove<Meta>>]) -> State<Meta> {
    let mut s = State::new();
    for list in ops {
        s.apply_ops(list);
    }
    s
}

#[test]
fn applying_same_ops_twice_gives_equal_states() {
    let ops = ops_of(3, 12);
    assert_eq!(from_ops(&[ops.clone()]), from_ops(&[ops]));
}

#[test]
fn ops_from_two_actors_commute() {
    let a = ops_of(1, 10);
    let b = ops_of(2, 10);
    let ab = from_ops(&[a.clone(), b.clone()]);
    let ba = from_ops(&[b, a]);
    assert_eq!(ab, ba);
    let ids: Vec<u64> = (0..10).collect();
    assert!(no_cycles(ab.tree(), &ids));
    assert!(parent_unique(ab.tree(), &ids));
    assert!(ab.check_log_is_descending());
    assert_eq!(ab.log().len(), 20);
}

#[test]
fn ops_from_three_actors_associate() {
    let a = ops_of(1, 8);
    let b = ops_of(2, 8);
    let c = ops_of(3, 8);
    let left = from_ops(&[a.clone(), b.clone(), c.clone()]);
    let right = from_ops(&[b.clone(), c.clone(), a.clone()]);
    assert_eq!(left, right);
    let mixed = from_ops(&[c, a, b]);
    assert_eq!(left, mixed);
}

#[test]
fn single_ops_commute() {
    let base = ops_of(4, 6);
    let o1 = OpMove::new(ts(3, 1), 2, "p", 5);
    let o2 = OpMove::new(ts(3, 2), 5, "q", 2);
    let mut s1 = from_ops(&[base.clone()]);
    s1.apply_op(o1);
    s1.apply_op(o2);
    let mut s2 = from_ops(&[base]);
    s2.apply_op(o2);
    s2.apply_op(o1);
    assert_eq!(s1, s2);
}

#[test]
fn apply_ops_into_consumes_ops() {
    let ops = ops_of(5, 6);
    let mut s = State::new();
    s.apply_ops_into(ops.clone());
    assert_eq!(s, from_ops(&[ops]));
}

#[test]
fn do_undo_redo_round_trip() {
    let mut s: State<Meta> = State::new();
    s.apply_op(OpMove::new(ts(1, 1), 0, "x", 1));
    s.apply_op(OpMove::new(ts(2, 1), 0, "y", 2));
    let before = s.tree().find(&2).copied();
    let op = OpMove::new(ts(3, 1), 1, "z", 2);
    let entry = s.do_op(op);
    assert_eq!(entry, LogOpMove::new(op, before));
    assert_eq!(*s.tree().find(&2).unwrap(), TreeNode::new(1, "z"));
    assert_eq!(s.log().len(), 2);
    s.undo_op(&entry);
    assert_eq!(s.tree().find(&2).copied(), before);
    s.redo_op(&entry);
    assert_eq!(s.log().len(), 3);
    assert_eq!(s.log()[0], entry);
    assert_eq!(OpMove::from_log_op_move(entry), op);
    assert_eq!(entry.op_into(), op);
    assert_eq!(*entry.timestamp(), ts(3, 1));
    assert_eq!(*entry.metadata(), "z");
    assert_eq!(*op.timestamp(), ts(3, 1));
    assert_eq!(*op.parent_id(), 1);
    assert_eq!(*op.child_id(), 2);
    assert_eq!(*op.metadata(), "z");
}

#[test]
fn undo_of_creation_removes_node() {
    let mut s: State<Meta> = State::new();
    let entry = s.do_op(OpMove::new(ts(1, 1), 0, "x", 1));
    assert_eq!(*entry.oldp(), None);
    assert!(s.tree().find(&1).is_some());
    s.undo_op(&entry);
    assert!(s.tree().find(&1).is_none());
    assert!(s.tree().children(&0).is_empty());
}

#[test]
fn state_from_existing_and_accessors() {
    let mut t = Tree::new();
    t.add_node(1, TreeNode::new(0, "x"));
    let entry = LogOpMove::new(OpMove::new(ts(1, 1), 0, "x", 1), None);
    let mut s = State::from_existing(vec![entry], t);
    assert_eq!(s.log().len(), 1);
    assert!(s.check_log_is_descending());
    s.add_log_entry(LogOpMove::new(OpMove::new(ts(2, 1), 0, "y", 2), None));
    assert_eq!(log_timestamps(&s), vec![ts(2, 1), ts(1, 1)]);
    assert!(s.check_log_is_descending());
    s.tree_mut().add_node(2, TreeNode::new(1, "y"));
    assert_eq!(*s.tree().find(&2).unwrap().parent_id(), 1);
    assert!(State::<Meta>::new().check_log_is_descending());
}
