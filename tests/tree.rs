use crdt_tree::{Clock, OpMove, State};

type TypeId = u64;
type TypeActor = u64;
type TypeMetaStr = &'static str;

fn new_id() -> TypeId {
    rand::random::<TypeId>()
}

fn new_actor() -> TypeActor {
    rand::random::<TypeActor>()
}

// Concurrent moves of the same node: replica 1 moves a under b while
// replica 2 moves a under c. Both replicas must pick the same outcome.
#[test]
fn concurrent_moves() {
    let mut r1: State<TypeMetaStr> = State::new();
    let mut r2: State<TypeMetaStr> = State::new();

    let (r1_id, r2_id) = (new_actor(), new_actor());
    let mut r1t = Clock::new(r1_id, None);
    let mut r2t = Clock::new(r2_id, None);

    let (root_id, a_id, b_id, c_id) = (new_id(), new_id(), new_id(), new_id());

    let ops = vec![
        OpMove::new(r1t.tick(), 0, "root", root_id),
        OpMove::new(r1t.tick(), root_id, "a", a_id),
        OpMove::new(r1t.tick(), root_id, "b", b_id),
        OpMove::new(r1t.tick(), root_id, "c", c_id),
    ];

    for op in ops {
        r1.apply_op(op.clone());
        r2.apply_op(op);
    }

    let r1_op = OpMove::new(r1t.tick(), b_id, "a", a_id);
    let r2_op = OpMove::new(r2t.tick(), c_id, "a", a_id);

    r1.apply_op(r1_op.clone());
    r1.apply_op(r2_op.clone());

    r2.apply_op(r2_op);
    r2.apply_op(r1_op);

    assert_eq!(r1, r2);
}

// Moving a node under its own descendant, concurrently: replica 1 moves b
// under a while replica 2 moves a under b. Both must agree and stay acyclic.
#[test]
fn concurrent_moves_cycle() {
    let mut r1: State<TypeMetaStr> = State::new();
    let mut r2: State<TypeMetaStr> = State::new();

    let (r1_id, r2_id) = (new_actor(), new_actor());
    let mut r1t = Clock::new(r1_id, None);
    let mut r2t = Clock::new(r2_id, None);

    let (root_id, a_id, b_id, c_id) = (new_id(), new_id(), new_id(), new_id());

    let ops = vec![
        OpMove::new(r1t.tick(), 0, "root", root_id),
        OpMove::new(r1t.tick(), root_id, "a", a_id),
        OpMove::new(r1t.tick(), root_id, "b", b_id),
        OpMove::new(r1t.tick(), a_id, "c", c_id),
    ];

    for op in ops {
        r1.apply_op(op.clone());
        r2.apply_op(op);
    }

    let r1_op = OpMove::new(r1t.tick(), a_id, "b", b_id);
    let r2_op = OpMove::new(r2t.tick(), b_id, "a", a_id);

    r1.apply_op(r1_op.clone());
    r1.apply_op(r2_op.clone());

    r2.apply_op(r2_op);
    r2.apply_op(r1_op);

    assert_eq!(r1, r2);
}
