//! A small disjoint-set forest kept in an arena: nodes are addressed by their
//! index, and each node may point to a parent.

use vstd::prelude::*;

verus! {

/// The index of a node of an [`ArenaTree`].
#[derive(Debug, Clone, Copy)]
pub struct NodeId(pub usize);

#[derive(Debug)]
struct Node {
    _id: NodeId,
    parent: Option<NodeId>,
}

/// A forest of nodes in which every tree is one set. The view of the forest
/// gives, for each node, the root of its tree.
pub struct ArenaTree {
    nodes: Vec<Node>,
    roots: Ghost<Seq<int>>,
    depths: Ghost<Seq<nat>>,
}

/// What holds of the roots of a forest: each entry names a node, and that
/// node is its own root.
pub open spec fn valid_roots(roots: Seq<int>) -> bool {
    forall|i: int|
        0 <= i < roots.len() ==> 0 <= #[trigger] roots[i] < roots.len() && roots[roots[i]]
            == roots[i]
}

/// For each node, whether it is its own root.
pub open spec fn root_flags(roots: Seq<int>) -> Seq<bool> {
    Seq::new(roots.len(), |i: int| roots[i] == i)
}

/// The number of sets of a forest.
pub open spec fn set_count(roots: Seq<int>) -> int {
    crate::grid::count_true(root_flags(roots))
}

/// Whether the two nodes exist and are in the same set.
pub open spec fn same_set(roots: Seq<int>, a: int, b: int) -> bool {
    0 <= a < roots.len() && 0 <= b < roots.len() && roots[a] == roots[b]
}

/// The roots after the set of `b` has been merged into the set of `a`. With
/// a node that does not exist, or two nodes of one set, nothing changes.
pub open spec fn merge(roots: Seq<int>, a: int, b: int) -> Seq<int> {
    if 0 <= a < roots.len() && 0 <= b < roots.len() && roots[a] != roots[b] {
        Seq::new(
            roots.len(),
            |i: int|
                if roots[i] == roots[b] {
                    roots[a]
                } else {
                    roots[i]
                },
        )
    } else {
        roots
    }
}

/// Whether the node is alone in its set.
pub open spec fn alone(roots: Seq<int>, n: int) -> bool {
    0 <= n < roots.len() && forall|m: int| 0 <= m < roots.len() && #[trigger] roots[m] == roots[n]
        ==> m == n
}

/// A merge joins the two sets, keeps together what was together, and keeps
/// the entries valid.
pub proof fn lemma_merge(roots: Seq<int>, a: int, b: int)
    requires
        valid_roots(roots),
    ensures
        valid_roots(merge(roots, a, b)),
        merge(roots, a, b).len() == roots.len(),
        0 <= a < roots.len() && 0 <= b < roots.len() ==> same_set(merge(roots, a, b), a, b),
        forall|i: int, j: int| #[trigger]
            same_set(roots, i, j) ==> same_set(merge(roots, a, b), i, j),
        forall|i: int, j: int| #[trigger]
            same_set(merge(roots, a, b), i, j) ==> same_set(roots, i, j) || (same_set(roots, i, a)
                && same_set(roots, b, j)) || (same_set(roots, i, b) && same_set(roots, a, j)),
{
    let after = merge(roots, a, b);
    if after != roots {
        assert(roots[roots[a]] == roots[a]);
        assert(roots[roots[b]] == roots[b]);
        assert forall|i: int| 0 <= i < after.len() implies 0 <= #[trigger] after[i] < after.len()
            && after[after[i]] == after[i] by {
            assert(0 <= roots[i] < roots.len() && roots[roots[i]] == roots[i]);
        }
    }
}

/// A merge of two different sets leaves one set less.
pub proof fn lemma_merge_count(roots: Seq<int>, a: int, b: int)
    requires
        valid_roots(roots),
        0 <= a < roots.len(),
        0 <= b < roots.len(),
        roots[a] != roots[b],
    ensures
        set_count(merge(roots, a, b)) == set_count(roots) - 1,
{
    let after = merge(roots, a, b);
    let top = roots[b];
    assert(roots[top] == top);
    assert(roots[roots[a]] == roots[a]);
    assert forall|i: int| 0 <= i < roots.len() implies #[trigger] root_flags(after)[i]
        == root_flags(roots).update(top, false)[i] by {
        assert(0 <= roots[i] < roots.len() && roots[roots[i]] == roots[i]);
    }
    assert(root_flags(after) =~= root_flags(roots).update(top, false));
    crate::grid::lemma_count_update(root_flags(roots), top, false);
}

/// A forest in which every node is its own root has as many sets as nodes.
pub proof fn lemma_count_apart(roots: Seq<int>)
    requires
        forall|i: int| 0 <= i < roots.len() ==> #[trigger] roots[i] == i,
    ensures
        set_count(roots) == roots.len(),
        valid_roots(roots),
{
    crate::grid::lemma_count_uniform(root_flags(roots), true);
}

/// A forest in which all nodes are in one set has one set.
pub proof fn lemma_count_joined(roots: Seq<int>)
    requires
        valid_roots(roots),
        roots.len() > 0,
        forall|i: int| 0 <= i < roots.len() ==> #[trigger] roots[i] == roots[0],
    ensures
        set_count(roots) == 1,
{
    let top = roots[0];
    let none = Seq::new(roots.len(), |i: int| false);
    assert(roots[top] == top);
    assert(root_flags(roots) =~= none.update(top, true));
    crate::grid::lemma_count_uniform(none, false);
    crate::grid::lemma_count_update(none, top, true);
}

/// After `connect(a, b)` and `connect(b, c)` the nodes `a` and `c` are in the
/// same set.
pub proof fn lemma_connect_twice(roots: Seq<int>, a: int, b: int, c: int)
    requires
        0 <= a < roots.len(),
        0 <= b < roots.len(),
        0 <= c < roots.len(),
    ensures
        same_set(merge(merge(roots, a, b), b, c), a, c),
{
}

/// A new node is alone in its set.
pub proof fn lemma_new_node_alone(roots: Seq<int>)
    requires
        valid_roots(roots),
    ensures
        alone(roots.push(roots.len() as int), roots.len() as int),
        valid_roots(roots.push(roots.len() as int)),
{
    let after = roots.push(roots.len() as int);
    assert forall|i: int| 0 <= i < after.len() implies 0 <= #[trigger] after[i] < after.len()
        && after[after[i]] == after[i] by {
        if i < roots.len() {
            assert(0 <= roots[i] < roots.len() && roots[roots[i]] == roots[i]);
        }
    }
}

/// A node that is alone stays alone as long as no merge names it.
pub proof fn lemma_untouched_alone(roots: Seq<int>, n: int, a: int, b: int)
    requires
        alone(roots, n),
        a != n,
        b != n,
    ensures
        alone(merge(roots, a, b), n),
{
    let after = merge(roots, a, b);
    if after != roots {
        assert(roots[b] != roots[n]);
        assert(roots[a] != roots[n]);
        assert forall|m: int| 0 <= m < after.len() && #[trigger] after[m] == after[n] implies m
            == n by {
            if roots[m] == roots[b] {
            } else {
                assert(roots[m] == roots[n]);
            }
        }
    }
}

impl View for ArenaTree {
    type V = Seq<int>;

    closed spec fn view(&self) -> Seq<int> {
        self.roots@
    }
}

impl ArenaTree {
    /// The validity of the forest: the parent links lead, without a cycle, from
    /// each node to the root that the view gives for it.
    pub closed spec fn wf(&self) -> bool {
        &&& self.roots@.len() == self.nodes@.len()
        &&& self.depths@.len() == self.nodes@.len()
        &&& forall|i: int|
            0 <= i < self.nodes@.len() ==> {
                &&& 0 <= #[trigger] self.roots@[i] < self.nodes@.len()
                &&& self.nodes@[self.roots@[i]].parent is None
                &&& match self.nodes@[i].parent {
                    None => self.roots@[i] == i && self.depths@[i] == 0,
                    Some(p) => p.0 < self.nodes@.len() && self.roots@[p.0 as int] == self.roots@[i]
                        && self.depths@[i] == self.depths@[p.0 as int] + 1,
                }
            }
    }

    /// The entries of the view of a valid forest name nodes.
    pub proof fn lemma_view_valid(&self)
        requires
            self.wf(),
        ensures
            valid_roots(self@),
    {
        assert forall|i: int| 0 <= i < self@.len() implies 0 <= #[trigger] self@[i] < self@.len()
            && self@[self@[i]] == self@[i] by {
            let r = self.roots@[i];
            assert(0 <= self.roots@[r] < self.nodes@.len());
        }
    }

    /// Creates an empty forest.
    pub fn new() -> (r: ArenaTree)
        ensures
            r.wf(),
            r@ == Seq::<int>::empty(),
    {
        ArenaTree { nodes: Vec::new(), roots: Ghost(Seq::empty()), depths: Ghost(Seq::empty()) }
    }

    /// Returns the number of nodes.
    pub fn len(&self) -> (r: usize)
        requires
            self.wf(),
        ensures
            r == self@.len(),
    {
        self.nodes.len()
    }

    /// Adds a node that is a set of its own, and returns its index.
    pub fn new_node(&mut self) -> (r: NodeId)
        requires
            old(self).wf(),
        ensures
            final(self).wf(),
            r.0 == old(self)@.len(),
            final(self)@ == old(self)@.push(old(self)@.len() as int),
    {
        let next_idx = NodeId(self.nodes.len());
        self.nodes.push(Node { _id: next_idx, parent: None });
        proof {
            let n = old(self).nodes@.len() as int;
            self.roots@ = old(self).roots@.push(n);
            self.depths@ = old(self).depths@.push(0);
            assert forall|i: int| 0 <= i < self.nodes@.len() implies {
                &&& 0 <= #[trigger] self.roots@[i] < self.nodes@.len()
                &&& self.nodes@[self.roots@[i]].parent is None
                &&& match self.nodes@[i].parent {
                    None => self.roots@[i] == i && self.depths@[i] == 0,
                    Some(p) => p.0 < self.nodes@.len() && self.roots@[p.0 as int] == self.roots@[i]
                        && self.depths@[i] == self.depths@[p.0 as int] + 1,
                }
            } by {
                if i < n {
                    assert(self.nodes@[i] == old(self).nodes@[i]);
                    let r = old(self).roots@[i];
                    assert(self.nodes@[r] == old(self).nodes@[r]);
                }
            }
        }
        next_idx
    }

    /// Merges the set of `id2` into the set of `id1`. With an index that names
    /// no node, or two nodes of one set, nothing changes.
    pub fn connect(&mut self, id1: NodeId, id2: NodeId)
        requires
            old(self).wf(),
        ensures
            final(self).wf(),
            final(self)@ == merge(old(self)@, id1.0 as int, id2.0 as int),
    {
        let root1 = self.root(id1);
        let root2 = self.root(id2);
        match (root1, root2) {
            (Some(r1), Some(r2)) => {
                if r1.0 != r2.0 {
                    let node = Node { _id: r2, parent: Some(r1) };
                    self.nodes[r2.0] = node;
                    proof {
                        let before = old(self).roots@;
                        let depths = old(self).depths@;
                        let a = r1.0 as int;
                        let b = r2.0 as int;
                        self.roots@ = merge(before, id1.0 as int, id2.0 as int);
                        self.depths@ = Seq::new(
                            depths.len(),
                            |i: int|
                                if before[i] == b {
                                    depths[i] + 1
                                } else {
                                    depths[i]
                                },
                        );
                        assert forall|i: int| 0 <= i < self.nodes@.len() implies {
                            &&& 0 <= #[trigger] self.roots@[i] < self.nodes@.len()
                            &&& self.nodes@[self.roots@[i]].parent is None
                            &&& match self.nodes@[i].parent {
                                None => self.roots@[i] == i && self.depths@[i] == 0,
                                Some(p) => p.0 < self.nodes@.len() && self.roots@[p.0 as int]
                                    == self.roots@[i] && self.depths@[i] == self.depths@[p.0 as int]
                                    + 1,
                            }
                        } by {
                            assert(0 <= before[i] < old(self).nodes@.len());
                            assert(before[a] == a);
                            assert(before[b] == b);
                            if i != b {
                                assert(self.nodes@[i] == old(self).nodes@[i]);
                                match old(self).nodes@[i].parent {
                                    None => {},
                                    Some(p) => {
                                        assert(0 <= before[p.0 as int] < old(self).nodes@.len());
                                    },
                                }
                            }
                        }
                    }
                }
            },
            _ => {},
        }
    }

    /// Returns whether the two nodes exist and are in the same set.
    pub fn connected(&self, id1: NodeId, id2: NodeId) -> (r: bool)
        requires
            self.wf(),
        ensures
            r == same_set(self@, id1.0 as int, id2.0 as int),
    {
        let root1 = self.root(id1);
        let root2 = self.root(id2);
        match (root1, root2) {
            (Some(r1), Some(r2)) => r1.0 == r2.0,
            _ => false,
        }
    }

    /// Follows the parent links from a node to the root of its tree. An index
    /// that names no node has no root.
    pub fn root(&self, id: NodeId) -> (r: Option<NodeId>)
        requires
            self.wf(),
        ensures
            match r {
                Some(n) => id.0 < self@.len() && n.0 == self@[id.0 as int],
                None => id.0 >= self@.len(),
            },
    {
        if id.0 >= self.nodes.len() {
            return None;
        }
        let mut cur = id.0;
        loop
            invariant
                self.wf(),
                cur < self.nodes@.len(),
                id.0 < self.nodes@.len(),
                self.roots@[cur as int] == self.roots@[id.0 as int],
            ensures
                cur == self.roots@[id.0 as int],
            decreases self.depths@[cur as int],
        {
            assert(0 <= self.roots@[cur as int] < self.nodes@.len());
            match self.nodes[cur].parent {
                Some(p) => {
                    cur = p.0;
                },
                None => {
                    break ;
                },
            }
        }
        Some(NodeId(cur))
    }
}

} // verus!
