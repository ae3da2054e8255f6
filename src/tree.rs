//! A forest stored as a map from each node to its parent and metadata, with
//! an index from each parent to its children.
use std::collections::{HashMap, HashSet};
use vstd::prelude::*;

use crate::treenode::{TreeId, TreeMeta, TreeNode};

verus! {

broadcast use vstd::std_specs::hash::group_hash_axioms;

/// `a` is reached from `c` by following at most `n` parent links (at least one).
pub open spec fn ancestor_within<TM>(
    t: Map<TreeId, TreeNode<TM>>,
    c: TreeId,
    a: TreeId,
    n: nat,
) -> bool
    decreases n,
{
    n > 0 && t.contains_key(c) && (t[c].parent_id == a || ancestor_within(
        t,
        t[c].parent_id,
        a,
        (n - 1) as nat,
    ))
}

/// `a` is an ancestor of `c`: the walk up from `c`, bounded by the number of
/// nodes in the tree, meets `a` as a parent.
pub open spec fn is_ancestor_of<TM>(t: Map<TreeId, TreeNode<TM>>, c: TreeId, a: TreeId) -> bool {
    ancestor_within(t, c, a, t.dom().len())
}

/// The node reached from `x` by following `k` parent links, if each link
/// exists.
pub open spec fn ancestor_at<TM>(t: Map<TreeId, TreeNode<TM>>, x: TreeId, k: nat) -> Option<TreeId>
    decreases k,
{
    if k == 0 {
        Some(x)
    } else if t.contains_key(x) {
        ancestor_at(t, t[x].parent_id, (k - 1) as nat)
    } else {
        None
    }
}

/// No node is its own ancestor: following parent links from a node never
/// leads back to it.
pub open spec fn acyclic<TM>(t: Map<TreeId, TreeNode<TM>>) -> bool {
    forall|x: TreeId, k: nat| k > 0 ==> #[trigger] ancestor_at(t, x, k) != Some(x)
}

/// The nodes whose parent is `p`.
pub open spec fn children_of<TM>(t: Map<TreeId, TreeNode<TM>>, p: TreeId) -> Set<TreeId> {
    Set::new(|c: TreeId| t.contains_key(c) && t[c].parent_id == p)
}

/// The nodes that removing the subtree under `p` takes away: its
/// descendants, and `p` itself when `include_parent` holds.
pub open spec fn subtree_of<TM>(t: Map<TreeId, TreeNode<TM>>, p: TreeId, include_parent: bool) -> Set<
    TreeId,
> {
    Set::new(|x: TreeId| (t.contains_key(x) && is_ancestor_of(t, x, p)) || (include_parent && x == p))
}

/// Some entry of `v` is for node `x`.
pub open spec fn lists_node(v: Seq<(TreeId, usize)>, x: TreeId) -> bool {
    exists|i: int| 0 <= i < v.len() && #[trigger] v[i].0 == x
}

/// Some entry of `kids` at index `k` or later is `x`.
spec fn from_kids(kids: Seq<TreeId>, k: int, x: TreeId) -> bool {
    exists|m: int| k <= m < kids.len() && #[trigger] kids[m] == x
}

/// Every node of `t` whose parent `v` lists is listed too, and `v` lists
/// `root`: then it lists every node from which a chain of parent links
/// reaches `root`.
proof fn lemma_closed_lists_descendants<TM>(
    t: Map<TreeId, TreeNode<TM>>,
    v: Seq<(TreeId, usize)>,
    root: TreeId,
    x: TreeId,
    k: nat,
)
    requires
        lists_node(v, root),
        forall|y: TreeId| t.contains_key(y) && lists_node(v, t[y].parent_id) ==> #[trigger] lists_node(v, y),
        k >= 1,
        ancestor_at(t, x, k) == Some(root),
    ensures
        lists_node(v, x),
    decreases k,
{
    assert(t.contains_key(x));
    if k == 1 {
        assert(ancestor_at(t, t[x].parent_id, 0) == Some(t[x].parent_id));
    } else {
        lemma_closed_lists_descendants(t, v, root, t[x].parent_id, (k - 1) as nat);
    }
}

/// A sequence of distinct nodes of a finite tree is no longer than the
/// tree has nodes.
proof fn lemma_distinct_nodes_bound<TM>(t: Map<TreeId, TreeNode<TM>>, ids: Seq<TreeId>)
    requires
        t.dom().finite(),
        ids.no_duplicates(),
        forall|i: int| 0 <= i < ids.len() ==> t.contains_key(#[trigger] ids[i]),
    ensures
        ids.len() <= t.dom().len(),
{
    ids.unique_seq_to_set();
    assert(ids.to_set().subset_of(t.dom())) by {
        assert forall|y: TreeId| ids.to_set().contains(y) implies t.dom().contains(y) by {
            let i = choose|i: int| 0 <= i < ids.len() && ids[i] == y;
            assert(t.contains_key(ids[i]));
        }
    }
    vstd::set_lib::lemma_len_subset(ids.to_set(), t.dom());
}

/// A forest: each node maps to its parent and metadata. The forest root is
/// an id that has children but no entry of its own.
#[derive(Debug, PartialEq, Eq)]
pub struct Tree<TM: TreeMeta> {
    triples: HashMap<TreeId, TreeNode<TM>>,
    children: HashMap<TreeId, HashSet<TreeId>>,
}

impl<TM: TreeMeta> View for Tree<TM> {
    type V = Map<TreeId, TreeNode<TM>>;

    closed spec fn view(&self) -> Map<TreeId, TreeNode<TM>> {
        self.triples@
    }
}

impl<TM: TreeMeta> Tree<TM> {
    /// The children index lists `c` under `p`.
    closed spec fn indexed(self, p: TreeId, c: TreeId) -> bool {
        self.children@.contains_key(p) && self.children@[p]@.contains(c)
    }

    /// The tree has finitely many nodes, and the children index holds exactly
    /// the parent links of the nodes, and no empty entry.
    pub closed spec fn wf(self) -> bool {
        &&& self@.dom().finite()
        &&& forall|p: TreeId, c: TreeId| #[trigger]
            self.indexed(p, c) <==> (self.triples@.contains_key(c)
                && self.triples@[c].parent_id == p)
        &&& forall|p: TreeId| #[trigger]
            self.children@.contains_key(p) ==> !self.children@[p]@.is_empty()
    }

    /// An empty forest.
    pub fn new() -> (r: Tree<TM>)
        ensures
            r.wf(),
            r@ == Map::<TreeId, TreeNode<TM>>::empty(),
    {
        Tree { triples: HashMap::new(), children: HashMap::new() }
    }

    /// The parent and metadata of `child_id`, if it is in the tree.
    pub fn find(&self, child_id: &TreeId) -> (r: Option<&TreeNode<TM>>)
        ensures
            match r {
                Some(n) => self@.contains_key(*child_id) && *n == self@[*child_id],
                None => !self@.contains_key(*child_id),
            },
    {
        self.triples.get(child_id)
    }

    /// A well-formed tree has finitely many nodes.
    pub proof fn lemma_wf_finite(&self)
        requires
            self.wf(),
        ensures
            self@.dom().finite(),
    {
    }

    /// Gives `child_id` new metadata, keeping its parent; returns whether the
    /// node exists. Nothing else changes.
    pub fn set_metadata(&mut self, child_id: &TreeId, metadata: TM) -> (r: bool)
        requires
            old(self).wf(),
        ensures
            final(self).wf(),
            r == old(self)@.contains_key(*child_id),
            r ==> final(self)@ == old(self)@.insert(
                *child_id,
                TreeNode { parent_id: old(self)@[*child_id].parent_id, metadata },
            ),
            !r ==> final(self)@ == old(self)@,
    {
        let parent = match self.triples.get(child_id) {
            Some(n) => Some(n.parent_id),
            None => None,
        };
        match parent {
            Some(p) => {
                let ghost before = *self;
                self.triples.insert(*child_id, TreeNode::new(p, metadata));
                proof {
                    assert forall|q: TreeId, x: TreeId|
                        #[trigger] self.indexed(q, x) <==> (self.triples@.contains_key(x)
                            && self.triples@[x].parent_id == q) by {
                        assert(before.indexed(q, x) <==> (before.triples@.contains_key(x)
                            && before.triples@[x].parent_id == q));
                    }
                }
                true
            },
            None => false,
        }
    }

    /// Removes `child_id` from the tree and from its parent's children; does
    /// nothing when it is absent.
    pub fn rm_child(&mut self, child_id: &TreeId)
        requires
            old(self).wf(),
        ensures
            final(self).wf(),
            final(self)@ == old(self)@.remove(*child_id),
    {
        let parent = match self.triples.get(child_id) {
            Some(t) => Some(t.parent_id),
            None => None,
        };
        if let Some(p) = parent {
            let entry = self.children.remove(&p);
            if let Some(mut set) = entry {
                set.remove(child_id);
                if !set.is_empty() {
                    self.children.insert(p, set);
                }
            }
            self.triples.remove(child_id);
            proof {
                let c = *child_id;
                assert forall|q: TreeId, x: TreeId|
                    #[trigger] self.indexed(q, x) <==> (self.triples@.contains_key(x)
                        && self.triples@[x].parent_id == q) by {
                    assert(old(self).indexed(q, x) <==> (old(self).triples@.contains_key(x)
                        && old(self).triples@[x].parent_id == q));
                    if q == p && x != c {
                        assert(old(self).indexed(q, c));
                    }
                }
            }
        }
    }

    /// Makes `child_id` a child of `tt.parent_id` with `tt.metadata`,
    /// replacing any record the node had.
    pub fn add_node(&mut self, child_id: TreeId, tt: TreeNode<TM>)
        requires
            old(self).wf(),
        ensures
            final(self).wf(),
            final(self)@ == old(self)@.insert(child_id, tt),
    {
        self.rm_child(&child_id);
        let ghost mid = *self;
        let p = tt.parent_id;
        let entry = self.children.remove(&p);
        let mut set = match entry {
            Some(set) => set,
            None => HashSet::new(),
        };
        set.insert(child_id);
        self.children.insert(p, set);
        self.triples.insert(child_id, tt);
        proof {
            assert forall|q: TreeId, x: TreeId|
                #[trigger] self.indexed(q, x) <==> (self.triples@.contains_key(x)
                    && self.triples@[x].parent_id == q) by {
                assert(mid.indexed(q, x) <==> (mid.triples@.contains_key(x)
                    && mid.triples@[x].parent_id == q));
            }
            assert forall|q: TreeId| #[trigger]
                self.children@.contains_key(q) implies !self.children@[q]@.is_empty() by {
                if q == p {
                    assert(self.children@[q]@.contains(child_id));
                }
            }
        }
        assert(self.triples@ == old(self)@.remove(child_id).insert(child_id, tt));
    }

    /// The children of `parent_id`, each once, in no particular order.
    pub fn children(&self, parent_id: &TreeId) -> (r: Vec<TreeId>)
        requires
            self.wf(),
        ensures
            r@.to_set() == children_of(self@, *parent_id),
            r@.no_duplicates(),
    {
        let mut v: Vec<TreeId> = Vec::new();
        match self.children.get(parent_id) {
            Some(set) => {
                for c in it: set.iter()
                    invariant
                        v.len() == it.index(),
                        forall|i: int| 0 <= i < it.index() ==> v@[i] == *it.seq()[i],
                        it.seq().unref().to_set() == set@,
                        it.seq().unref().no_duplicates(),
                        it.index() == it.seq().len() ==> v@ == it.seq().unref(),
                {
                    v.push(*c);
                    assert(it.index() == it.seq().len() ==> v@ =~= it.seq().unref());
                }
                assert forall|c: TreeId|
                    #[trigger] children_of(self@, *parent_id).contains(c) <==> set@.contains(c) by {
                    assert(self.indexed(*parent_id, c) <==> (self.triples@.contains_key(c)
                        && self.triples@[c].parent_id == *parent_id));
                }
                assert(v@.to_set() =~= children_of(self@, *parent_id));
            },
            None => {
                assert forall|c: TreeId| !#[trigger] children_of(self@, *parent_id).contains(c) by {
                    assert(self.indexed(*parent_id, c) <==> (self.triples@.contains_key(c)
                        && self.triples@[c].parent_id == *parent_id));
                }
                assert(v@.to_set() =~= children_of(self@, *parent_id));
            },
        }
        v
    }

    /// Whether `ancestor_id` is met walking up the parent links from
    /// `child_id`; the walk takes at most as many steps as the tree has nodes.
    pub fn is_ancestor(&self, child_id: &TreeId, ancestor_id: &TreeId) -> (r: bool)
        ensures
            r == is_ancestor_of(self@, *child_id, *ancestor_id),
    {
        let n = self.triples.len();
        let mut target = *child_id;
        let mut i: usize = 0;
        while i < n
            invariant
                i <= n,
                n == self@.dom().len(),
                is_ancestor_of(self@, *child_id, *ancestor_id) == ancestor_within(
                    self@,
                    target,
                    *ancestor_id,
                    (n - i) as nat,
                ),
            decreases n - i,
        {
            match self.triples.get(&target) {
                Some(node) => {
                    if node.parent_id == *ancestor_id {
                        return true;
                    }
                    target = node.parent_id;
                    i = i + 1;
                },
                None => {
                    return false;
                },
            }
        }
        false
    }

    /// The ids of all nodes that have a record, each once, in no particular
    /// order.
    pub fn node_ids(&self) -> (r: Vec<TreeId>)
        ensures
            r@.to_set() == self@.dom(),
            r@.no_duplicates(),
    {
        let mut v: Vec<TreeId> = Vec::new();
        for c in it: self.triples.keys()
            invariant
                v.len() == it.index(),
                forall|i: int| 0 <= i < it.index() ==> v@[i] == *it.seq()[i],
                it.seq().unref().to_set() == self@.dom(),
                it.seq().unref().no_duplicates(),
                it.index() == it.seq().len() ==> v@ == it.seq().unref(),
        {
            v.push(*c);
            assert(it.index() == it.seq().len() ==> v@ =~= it.seq().unref());
        }
        v
    }

    /// Removes every descendant of `parent_id`, and `parent_id` itself when
    /// `include_parent` holds.
    pub fn rm_subtree(&mut self, parent_id: &TreeId, include_parent: bool)
        requires
            old(self).wf(),
        ensures
            final(self).wf(),
            final(self)@ == old(self)@.remove_keys(subtree_of(old(self)@, *parent_id, include_parent)),
    {
        let ids = self.node_ids();
        let mut doomed: Vec<TreeId> = Vec::new();
        let mut i: usize = 0;
        while i < ids.len()
            invariant
                i <= ids.len(),
                forall|x: TreeId|
                    #[trigger] doomed@.contains(x) <==> (ids@.take(i as int).contains(x)
                        && is_ancestor_of(self@, x, *parent_id)),
            decreases ids.len() - i,
        {
            let x = ids[i];
            let ghost d0 = doomed@;
            let anc = self.is_ancestor(&x, parent_id);
            if anc {
                doomed.push(x);
            }
            proof {
                assert forall|y: TreeId| #[trigger]
                    doomed@.contains(y) <==> (d0.contains(y) || (anc && y == x)) by {
                    if doomed@.contains(y) {
                        let k = choose|k: int| 0 <= k < doomed@.len() && #[trigger] doomed@[k] == y;
                        if k < d0.len() {
                            assert(d0[k] == y);
                        }
                    }
                    if d0.contains(y) {
                        let k = choose|k: int| 0 <= k < d0.len() && #[trigger] d0[k] == y;
                        assert(doomed@[k] == y);
                    }
                    if anc && y == x {
                        assert(doomed@[d0.len() as int] == x);
                    }
                }
                assert forall|y: TreeId| #[trigger]
                    doomed@.contains(y) <==> (ids@.take(i + 1).contains(y) && is_ancestor_of(
                        self@,
                        y,
                        *parent_id,
                    )) by {
                    assert(d0.contains(y) <==> (ids@.take(i as int).contains(y) && is_ancestor_of(
                        self@,
                        y,
                        *parent_id,
                    )));
                    if ids@.take(i + 1).contains(y) {
                        let j = choose|j: int| 0 <= j < i + 1 && #[trigger] ids@.take(i + 1)[j] == y;
                        if j < i {
                            assert(ids@.take(i as int)[j] == y);
                        }
                    }
                    if y == x {
                        assert(ids@.take(i + 1)[i as int] == y);
                    }
                    if ids@.take(i as int).contains(y) {
                        let j = choose|j: int| 0 <= j < i && #[trigger] ids@.take(i as int)[j] == y;
                        assert(ids@.take(i + 1)[j] == y);
                    }
                }
            }
            i = i + 1;
        }
        assert(ids@.take(i as int) =~= ids@);
        let ghost start = self@;
        let ghost gone = subtree_of(start, *parent_id, include_parent);
        let mut j: usize = 0;
        while j < doomed.len()
            invariant
                j <= doomed.len(),
                self.wf(),
                self@ == start.remove_keys(doomed@.take(j as int).to_set()),
            decreases doomed.len() - j,
        {
            self.rm_child(&doomed[j]);
            assert(doomed@.take(j + 1) =~= doomed@.take(j as int).push(doomed@[j as int]));
            proof {
                doomed@.take(j as int).lemma_push_to_set_commute(doomed@[j as int]);
            }
            j = j + 1;
            assert(self@ =~= start.remove_keys(doomed@.take(j as int).to_set()));
        }
        assert(doomed@.take(j as int) =~= doomed@);
        if include_parent {
            self.rm_child(parent_id);
        }
        assert(self@ =~= start.remove_keys(gone));
    }

    /// Pushes an entry `(c, depth)` for each child `c` of `p` other than
    /// `root`.
    fn push_children(&self, p: TreeId, depth: usize, root: TreeId, stack: &mut Vec<(TreeId, usize)>)
        requires
            self.wf(),
        ensures
            final(stack)@.len() >= old(stack)@.len(),
            forall|i: int| 0 <= i < old(stack)@.len() ==> final(stack)@[i] == old(stack)@[i],
            forall|i: int|
                old(stack)@.len() <= i < final(stack)@.len() ==> {
                    &&& #[trigger] final(stack)@[i].1 == depth
                    &&& self@.contains_key(final(stack)@[i].0)
                    &&& self@[final(stack)@[i].0].parent_id == p
                    &&& final(stack)@[i].0 != root
                },
            forall|i: int, j: int|
                old(stack)@.len() <= i < j < final(stack)@.len() ==> #[trigger] final(stack)@[i].0
                    != #[trigger] final(stack)@[j].0,
            forall|x: TreeId|
                self@.contains_key(x) && self@[x].parent_id == p && x != root ==> exists|i: int|
                    old(stack)@.len() <= i < final(stack)@.len() && #[trigger] final(stack)@[i].0
                        == x,
    {
        let kids = self.children(&p);
        let ghost start = stack@;
        let mut k = kids.len();
        while k > 0
            invariant
                k <= kids.len(),
                kids@.to_set() == children_of(self@, p),
                kids@.no_duplicates(),
                stack@.len() >= start.len(),
                forall|i: int| 0 <= i < start.len() ==> stack@[i] == start[i],
                forall|i: int|
                    start.len() <= i < stack@.len() ==> (#[trigger] stack@[i]).1 == depth
                        && stack@[i].0 != root && from_kids(kids@, k as int, stack@[i].0),
                forall|i: int, j: int|
                    start.len() <= i < j < stack@.len() ==> #[trigger] stack@[i].0
                        != #[trigger] stack@[j].0,
                forall|m: int|
                    k <= m < kids.len() && #[trigger] kids@[m] != root ==> exists|i: int|
                        start.len() <= i < stack@.len() && #[trigger] stack@[i].0 == kids@[m],
            decreases k,
        {
            k = k - 1;
            if kids[k] != root {
                let ghost before = stack@;
                stack.push((kids[k], depth));
                proof {
                    assert forall|i: int|
                        start.len() <= i < stack@.len() implies (#[trigger] stack@[i]).1 == depth
                        && stack@[i].0 != root && from_kids(kids@, k as int, stack@[i].0) by {
                        if i < before.len() {
                            assert(stack@[i] == before[i]);
                            assert(from_kids(kids@, k + 1, before[i].0));
                            let m = choose|m: int| k + 1 <= m < kids.len() && #[trigger] kids@[m] == before[i].0;
                            assert(k <= m < kids.len() && kids@[m] == stack@[i].0);
                        } else {
                            assert(kids@[k as int] == stack@[i].0);
                        }
                    }
                    assert forall|i: int, j: int|
                        start.len() <= i < j < stack@.len() implies #[trigger] stack@[i].0
                        != #[trigger] stack@[j].0 by {
                        if j == before.len() {
                            assert(from_kids(kids@, k + 1, before[i].0));
                            let m = choose|m: int| k + 1 <= m < kids.len() && #[trigger] kids@[m] == before[i].0;
                            assert(kids@[m] != kids@[k as int]);
                        } else {
                            assert(stack@[i] == before[i] && stack@[j] == before[j]);
                        }
                    }
                    assert forall|m: int|
                        k <= m < kids.len() && #[trigger] kids@[m] != root implies exists|i: int|
                        start.len() <= i < stack@.len() && #[trigger] stack@[i].0 == kids@[m] by {
                        if m == k {
                            assert(stack@[before.len() as int].0 == kids@[m]);
                        } else {
                            let i = choose|i: int|
                                start.len() <= i < before.len() && #[trigger] before[i].0 == kids@[m];
                            assert(stack@[i] == before[i]);
                        }
                    }
                }
            } else {
                proof {
                    assert forall|i: int|
                        start.len() <= i < stack@.len() implies (#[trigger] stack@[i]).1 == depth
                        && stack@[i].0 != root && from_kids(kids@, k as int, stack@[i].0) by {
                        assert(from_kids(kids@, k + 1, stack@[i].0));
                        let m = choose|m: int| k + 1 <= m < kids.len() && #[trigger] kids@[m] == stack@[i].0;
                        assert(k <= m < kids.len() && kids@[m] == stack@[i].0);
                    }
                }
            }
        }
        proof {
            assert forall|i: int| start.len() <= i < stack@.len() implies self@.contains_key(
                stack@[i].0,
            ) && self@[stack@[i].0].parent_id == p by {
                assert(from_kids(kids@, 0, stack@[i].0));
                let m = choose|m: int| 0 <= m < kids.len() && #[trigger] kids@[m] == stack@[i].0;
                assert(kids@.contains(kids@[m]));
                assert(kids@.to_set().contains(kids@[m]));
            }
            assert forall|x: TreeId|
                self@.contains_key(x) && self@[x].parent_id == p && x != root implies exists|i: int|
                start.len() <= i < stack@.len() && #[trigger] stack@[i].0 == x by {
                assert(children_of(self@, p).contains(x));
                assert(kids@.to_set().contains(x));
                assert(kids@.contains(x));
                let m = choose|m: int| 0 <= m < kids.len() && kids@[m] == x;
                assert(kids@[m] != root);
            }
        }
    }

    /// The nodes under `root` in depth-first pre-order, each with its depth
    /// below `root`: `root` comes first at depth 0, every node below it comes
    /// once, and each node comes after its parent, one level deeper.
    pub fn preorder(&self, root: &TreeId) -> (r: Vec<(TreeId, usize)>)
        requires
            self.wf(),
        ensures
            r@.len() > 0,
            r@[0] == (*root, 0usize),
            forall|i: int, j: int| 0 <= i < j < r@.len() ==> #[trigger] r@[i].0 != #[trigger] r@[j].0,
            forall|i: int| 1 <= i < r@.len() ==> self@.contains_key(#[trigger] r@[i].0),
            forall|i: int|
                1 <= i < r@.len() ==> exists|j: int|
                    0 <= j < i && r@[j].0 == self@[#[trigger] r@[i].0].parent_id && r@[i].1
                        == r@[j].1 + 1,
            forall|x: TreeId|
                self@.contains_key(x) && is_ancestor_of(self@, x, *root) ==> #[trigger] lists_node(
                    r@,
                    x,
                ),
    {
        let root = *root;
        let ghost n = self@.dom().len();
        let mut out: Vec<(TreeId, usize)> = Vec::new();
        out.push((root, 0));
        let mut stack: Vec<(TreeId, usize)> = Vec::new();
        self.push_children(root, 1, root, &mut stack);
        proof {
            assert(out@[0].0 == root);
            assert forall|i: int, u: int|
                0 <= i < out@.len() && 0 <= u < stack@.len() implies #[trigger] out@[i].0
                != #[trigger] stack@[u].0 by {
                assert(stack@[u].1 == 1);
            }
            assert forall|u: int|
                0 <= u < stack@.len() implies self@.contains_key(#[trigger] stack@[u].0) && exists|j: int|
                0 <= j < out@.len() && out@[j].0 == self@[stack@[u].0].parent_id && stack@[u].1
                    == out@[j].1 + 1 by {
                assert(stack@[u].1 == 1);
                assert(out@[0].0 == self@[stack@[u].0].parent_id);
            }
            assert forall|x: TreeId|
                self@.contains_key(x) && lists_node(out@, self@[x].parent_id) implies #[trigger] lists_node(
                out@,
                x,
            ) || lists_node(stack@, x) by {
                if x == root {
                    assert(out@[0].0 == x);
                } else {
                    let s = choose|s: int| 0 <= s < stack@.len() && #[trigger] stack@[s].0 == x;
                }
            }
        }
        while stack.len() > 0
            invariant
                self.wf(),
                n == self@.dom().len(),
                out@.len() >= 1,
                out@.len() <= n + 1,
                out@[0] == (root, 0usize),
                forall|i: int, j: int| 0 <= i < j < out@.len() ==> #[trigger] out@[i].0 != #[trigger] out@[j].0,
                forall|i: int, s: int|
                    0 <= i < out@.len() && 0 <= s < stack@.len() ==> #[trigger] out@[i].0
                        != #[trigger] stack@[s].0,
                forall|s: int, u: int| 0 <= s < u < stack@.len() ==> #[trigger] stack@[s].0 != #[trigger] stack@[u].0,
                forall|i: int| 0 <= i < out@.len() ==> #[trigger] out@[i].1 <= i,
                forall|i: int|
                    1 <= i < out@.len() ==> self@.contains_key(#[trigger] out@[i].0) && exists|j: int|
                        0 <= j < i && out@[j].0 == self@[out@[i].0].parent_id && out@[i].1 == out@[j].1 + 1,
                forall|s: int|
                    0 <= s < stack@.len() ==> self@.contains_key(#[trigger] stack@[s].0) && exists|j: int|
                        0 <= j < out@.len() && out@[j].0 == self@[stack@[s].0].parent_id && stack@[s].1
                            == out@[j].1 + 1,
                forall|x: TreeId|
                    self@.contains_key(x) && lists_node(out@, self@[x].parent_id) ==> #[trigger] lists_node(
                        out@,
                        x,
                    ) || lists_node(stack@, x),
            decreases n + 1 - out@.len(),
        {
            let ghost out0 = out@;
            let ghost stack0 = stack@;
            let (p, d) = stack.pop().unwrap();
            let ghost rest = stack@;
            assert(stack0 == rest.push((p, d)));
            assert(rest =~= stack0.drop_last());
            out.push((p, d));
            let ghost out1 = out@;
            assert(out1 == out0.push((p, d)));
            let ghost lp = out0.len() as int;
            let l = out.len();
            proof {
                let j = choose|j: int|
                    0 <= j < out0.len() && out0[j].0 == self@[p].parent_id && d == out0[j].1 + 1;
                assert(out0[j].1 <= j);
                assert(stack0[stack0.len() - 1] == (p, d));
            }
            self.push_children(p, d + 1, root, &mut stack);
            proof {
                let last = stack0.len() - 1;
                let sf = stack@;
                // The new entry of `out` is distinct from what it held.
                assert forall|i: int| 0 <= i < lp implies out0[i].0 != p by {
                    assert(out0[i].0 != stack0[last].0);
                }
                // A child of `p` cannot already be listed, in `out` or in the rest of the stack.
                assert forall|x: TreeId|
                    self@.contains_key(x) && self@[x].parent_id == p && x != root implies !lists_node(out1, x)
                    && !lists_node(rest, x) by {
                    if lists_node(out1, x) {
                        let i = choose|i: int| 0 <= i < out1.len() && #[trigger] out1[i].0 == x;
                        if i == lp {
                            let j = choose|j: int|
                                0 <= j < out0.len() && out0[j].0 == self@[p].parent_id && d == out0[j].1 + 1;
                            assert(out0[j].0 != stack0[last].0);
                        } else {
                            assert(out0[i].0 == x);
                            let j = choose|j: int|
                                0 <= j < i && out0[j].0 == self@[out0[i].0].parent_id && out0[i].1 == out0[j].1 + 1;
                            assert(out0[j].0 != stack0[last].0);
                        }
                    }
                    if lists_node(rest, x) {
                        let u = choose|u: int| 0 <= u < rest.len() && #[trigger] rest[u].0 == x;
                        assert(stack0[u] == rest[u]);
                        let j = choose|j: int|
                            0 <= j < out0.len() && out0[j].0 == self@[stack0[u].0].parent_id && stack0[u].1
                                == out0[j].1 + 1;
                        assert(out0[j].0 != stack0[last].0);
                    }
                }
                // The listed nodes other than the root are distinct nodes of the tree.
                let ids = Seq::new((out1.len() - 1) as nat, |i: int| out1[i + 1].0);
                assert forall|i: int| 0 <= i < ids.len() implies self@.contains_key(#[trigger] ids[i]) by {
                    if i + 1 < lp {
                        assert(out1[i + 1] == out0[i + 1]);
                    }
                }
                assert(ids.no_duplicates()) by {
                    assert forall|a: int, b: int| 0 <= a < b < ids.len() implies ids[a] != ids[b] by {
                        if b + 1 < lp {
                            assert(out0[a + 1].0 != out0[b + 1].0);
                        } else {
                            assert(out0[a + 1].0 != stack0[last].0);
                        }
                    }
                }
                lemma_distinct_nodes_bound(self@, ids);
                assert forall|i: int, j: int| 0 <= i < j < out@.len() implies #[trigger] out@[i].0
                    != #[trigger] out@[j].0 by {
                    if j < lp {
                        assert(out0[i].0 != out0[j].0);
                    } else {
                        assert(out0[i].0 != stack0[last].0);
                    }
                }
                assert forall|i: int, u: int|
                    0 <= i < out@.len() && 0 <= u < sf.len() implies #[trigger] out@[i].0
                    != #[trigger] sf[u].0 by {
                    if u < rest.len() {
                        assert(sf[u] == rest[u] && rest[u] == stack0[u]);
                        if i < lp {
                            assert(out0[i].0 != stack0[u].0);
                        } else {
                            assert(stack0[u].0 != stack0[last].0);
                        }
                    } else {
                        assert(sf[u].1 == d + 1);
                        if out@[i].0 == sf[u].0 {
                            assert(out1[i].0 == sf[u].0);
                            assert(lists_node(out1, sf[u].0));
                        }
                    }
                }
                assert forall|a: int, b: int| 0 <= a < b < sf.len() implies #[trigger] sf[a].0
                    != #[trigger] sf[b].0 by {
                    if b < rest.len() {
                        assert(sf[a] == stack0[a] && sf[b] == stack0[b]);
                    } else if a < rest.len() {
                        assert(sf[b].1 == d + 1);
                        if sf[a].0 == sf[b].0 {
                            assert(sf[a] == rest[a]);
                            assert(lists_node(rest, sf[b].0));
                        }
                    }
                }
                assert forall|i: int| 0 <= i < out@.len() implies #[trigger] out@[i].1 <= i by {
                    if i < lp {
                        assert(out0[i].1 <= i);
                    } else {
                        let j = choose|j: int|
                            0 <= j < out0.len() && out0[j].0 == self@[p].parent_id && d == out0[j].1 + 1;
                        assert(out0[j].1 <= j);
                    }
                }
                assert forall|i: int|
                    1 <= i < out@.len() implies self@.contains_key(#[trigger] out@[i].0) && exists|j: int|
                    0 <= j < i && out@[j].0 == self@[out@[i].0].parent_id && out@[i].1 == out@[j].1 + 1 by {
                    if i < lp {
                        assert(out1[i] == out0[i]);
                        let j = choose|j: int|
                            0 <= j < i && out0[j].0 == self@[out0[i].0].parent_id && out0[i].1 == out0[j].1 + 1;
                        assert(out1[j] == out0[j]);
                    } else {
                        let j = choose|j: int|
                            0 <= j < out0.len() && out0[j].0 == self@[p].parent_id && d == out0[j].1 + 1;
                        assert(out1[j] == out0[j]);
                    }
                }
                assert forall|u: int|
                    0 <= u < sf.len() implies self@.contains_key(#[trigger] sf[u].0) && exists|j: int|
                    0 <= j < out@.len() && out@[j].0 == self@[sf[u].0].parent_id && sf[u].1 == out@[j].1 + 1 by {
                    if u < rest.len() {
                        assert(sf[u] == rest[u] && rest[u] == stack0[u]);
                        let j = choose|j: int|
                            0 <= j < out0.len() && out0[j].0 == self@[stack0[u].0].parent_id && stack0[u].1
                                == out0[j].1 + 1;
                        assert(out1[j] == out0[j]);
                    } else {
                        assert(sf[u].1 == d + 1);
                        assert(out1[lp] == (p, d));
                        assert(out@[lp].0 == self@[sf[u].0].parent_id && sf[u].1 == out@[lp].1 + 1);
                    }
                }
                assert forall|x: TreeId|
                    self@.contains_key(x) && lists_node(out@, self@[x].parent_id) implies #[trigger] lists_node(
                    out@,
                    x,
                ) || lists_node(sf, x) by {
                    let i = choose|i: int| 0 <= i < out1.len() && #[trigger] out1[i].0 == self@[x].parent_id;
                    if i < lp {
                        assert(out0[i].0 == self@[x].parent_id);
                        assert(lists_node(out0, self@[x].parent_id));
                        if lists_node(out0, x) {
                            let a = choose|a: int| 0 <= a < out0.len() && #[trigger] out0[a].0 == x;
                            assert(out1[a].0 == x);
                        } else {
                            assert(lists_node(stack0, x));
                            let u = choose|u: int| 0 <= u < stack0.len() && #[trigger] stack0[u].0 == x;
                            if u == last {
                                assert(out1[lp].0 == x);
                            } else {
                                assert(sf[u] == rest[u] && rest[u] == stack0[u]);
                            }
                        }
                    } else if x == root {
                        assert(out1[0].0 == x);
                    } else {
                        let u = choose|u: int| rest.len() <= u < sf.len() && #[trigger] sf[u].0 == x;
                    }
                }
            }
        }
        proof {
            assert forall|x: TreeId|
                self@.contains_key(x) && is_ancestor_of(self@, x, root) implies #[trigger] lists_node(out@, x) by {
                crate::laws::lemma_chain_from_within(self@, x, root, self@.dom().len());
                let k = choose|k: nat| k >= 1 && #[trigger] ancestor_at(self@, x, k) == Some(root);
                assert(out@[0].0 == root);
                lemma_closed_lists_descendants(self@, out@, root, x, k);
            }
        }
        out
    }

    /// Calls `f` on the tree with each entry of [`Tree::preorder`] of
    /// `parent_id` in turn: the node, then its depth under `parent_id`.
    pub fn walk<F: Fn(&Tree<TM>, &TreeId, usize)>(&self, parent_id: &TreeId, f: &F)
        requires
            self.wf(),
            forall|id: &TreeId, d: usize| #[trigger] f.requires((self, id, d)),
    {
        let order = self.preorder(parent_id);
        let mut i: usize = 0;
        while i < order.len()
            invariant
                forall|id: &TreeId, d: usize| #[trigger] f.requires((self, id, d)),
            decreases order.len() - i,
        {
            f(self, &order[i].0, order[i].1);
            i = i + 1;
        }
    }
}

} // verus!
