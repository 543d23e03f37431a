//! The e-graph: union-find over classes plus hash-consed nodes.
//!
//! Node `i` is the node that created class `i`; its class is now `uf[i]`.
//! The union-find keeps every entry pointing straight at its representative,
//! so `find` is one read and there is never a path to compress; `union`
//! relabels the members of the younger class, and the older representative
//! survives. Hash-consing looks a node up among the stored nodes by its
//! canonical form. `rebuild` re-canonicalises every stored node (not only the
//! parents of merged classes) and merges classes whose nodes collide, until
//! none do.
use vstd::prelude::*;
use crate::term::{ENode, Kind, NodeView};

verus! {

/// The e-graph as the proofs see it.
pub struct GraphView {
    pub nodes: Seq<NodeView>,
    pub uf: Seq<usize>,
}

/// An e-graph for one optimisation run.
pub struct EGraph {
    pub nodes: Vec<ENode>,
    pub uf: Vec<usize>,
}

impl View for EGraph {
    type V = GraphView;

    open spec fn view(&self) -> GraphView {
        GraphView { nodes: self.nodes@.map_values(|n: ENode| n@), uf: self.uf@ }
    }
}

/// Each id replaced by its representative.
pub open spec fn canon_ids(uf: Seq<usize>, ids: Seq<usize>) -> Seq<usize> {
    ids.map_values(|c: usize| uf[c as int])
}

/// A node with canonical children.
pub open spec fn canon(uf: Seq<usize>, n: NodeView) -> NodeView {
    (n.0, canon_ids(uf, n.1))
}

/// Every id is below `len`.
pub open spec fn ids_below(ids: Seq<usize>, len: nat) -> bool {
    forall|k: int| 0 <= k < ids.len() ==> (#[trigger] ids[k]) < len
}

/// `relabel(uf, from, to)`: the union-find after class `from` joins class `to`.
pub open spec fn relabel(uf: Seq<usize>, from: usize, to: usize) -> Seq<usize> {
    uf.map_values(|x: usize| if x == from { to } else { x })
}

/// Every equality of `a` holds in `b`.
pub open spec fn refines(a: Seq<usize>, b: Seq<usize>) -> bool {
    forall|i: int, j: int|
        0 <= i < a.len() && 0 <= j < a.len() && #[trigger] a[i] == #[trigger] a[j] ==> b[i] == b[j]
}

/// Number of representatives among the first `k` entries.
pub open spec fn count_roots(uf: Seq<usize>, k: nat) -> nat
    decreases k,
{
    if k == 0 {
        0
    } else {
        count_roots(uf, (k - 1) as nat) + if uf[k - 1] == k - 1 { 1nat } else { 0nat }
    }
}

impl GraphView {
    pub open spec fn len(self) -> nat {
        self.uf.len()
    }

    /// Well-formed: one entry per node, every entry points at a representative,
    /// every child reference names a class.
    pub open spec fn wf(self) -> bool {
        &&& self.nodes.len() == self.uf.len()
        &&& forall|i: int| 0 <= i < self.len() ==> (#[trigger] self.uf[i]) < self.len()
        &&& forall|i: int| 0 <= i < self.len() ==> self.uf[#[trigger] self.uf[i] as int] == self.uf[i]
        &&& forall|i: int| 0 <= i < self.len() ==> ids_below((#[trigger] self.nodes[i]).1, self.len())
    }

    /// Every stored child reference is the representative of its class.
    pub open spec fn canonical(self) -> bool {
        forall|i: int, k: int|
            0 <= i < self.len() && 0 <= k < self.nodes[i].1.len() ==> self.uf[
                #[trigger] self.nodes[i].1[k] as int] == self.nodes[i].1[k]
    }

    /// Congruence: equal stored nodes are in one class.
    pub open spec fn congruent(self) -> bool {
        forall|i: int, j: int|
            0 <= i < self.len() && 0 <= j < self.len() && #[trigger] self.nodes[i]
                == #[trigger] self.nodes[j] ==> self.uf[i] == self.uf[j]
    }

    /// `a` and `b` are in one class.
    pub open spec fn equiv(self, a: int, b: int) -> bool {
        self.uf[a] == self.uf[b]
    }

    /// The first node at or after `j` whose canonical form is `cn`.
    pub open spec fn find_from(self, cn: NodeView, j: nat) -> Option<nat>
        decreases self.len() - j,
    {
        if j >= self.len() {
            None
        } else if canon(self.uf, self.nodes[j as int]) == cn {
            Some(j)
        } else {
            self.find_from(cn, j + 1)
        }
    }

    /// The graph and class id after adding `n`: an existing class holding the
    /// same canonical node, or else a new singleton class.
    pub open spec fn add(self, n: NodeView) -> (GraphView, usize) {
        let cn = canon(self.uf, n);
        match self.find_from(cn, 0) {
            Some(j) => (self, self.uf[j as int]),
            None => (
                GraphView { nodes: self.nodes.push(cn), uf: self.uf.push(self.len() as usize) },
                self.len() as usize,
            ),
        }
    }

    /// The graph after merging the classes of `a` and `b`; the older
    /// representative survives.
    pub open spec fn union(self, a: int, b: int) -> GraphView {
        let ra = self.uf[a];
        let rb = self.uf[b];
        if ra == rb {
            self
        } else if ra < rb {
            GraphView { nodes: self.nodes, uf: relabel(self.uf, rb, ra) }
        } else {
            GraphView { nodes: self.nodes, uf: relabel(self.uf, ra, rb) }
        }
    }
}

/// `e` is symmetric and transitive on ids below `n`.
pub open spec fn is_equiv_on(e: spec_fn(int, int) -> bool, n: nat) -> bool {
    &&& forall|x: int, y: int| 0 <= x < n && 0 <= y < n && #[trigger] e(x, y) ==> e(y, x)
    &&& forall|x: int, y: int, z: int|
        0 <= x < n && 0 <= y < n && 0 <= z < n && #[trigger] e(x, y) && #[trigger] e(y, z) ==> e(x, z)
}

/// Every equality of the union-find holds in `e`.
pub open spec fn within(uf: Seq<usize>, e: spec_fn(int, int) -> bool) -> bool {
    forall|x: int, y: int| 0 <= x < uf.len() && 0 <= y < uf.len() && #[trigger] uf[x] == #[trigger] uf[y] ==> e(x, y)
}

/// `e` is an equivalence that holds every equality of `g` and is closed under
/// congruence over the nodes of `g`.
pub open spec fn congruence_of(g: GraphView, e: spec_fn(int, int) -> bool) -> bool {
    &&& is_equiv_on(e, g.len())
    &&& within(g.uf, e)
    &&& forall|i: int, j: int|
        0 <= i < g.len() && 0 <= j < g.len() && g.nodes[i].0 == g.nodes[j].0 && g.nodes[i].1.len()
            == g.nodes[j].1.len() && (forall|k: int|
            0 <= k < g.nodes[i].1.len() ==> e(#[trigger] g.nodes[i].1[k] as int, g.nodes[j].1[k] as int))
            ==> #[trigger] e(i, j)
}

/// A union of two ids that `e` already relates keeps the union-find within `e`.
proof fn lemma_union_within(g: GraphView, i: int, j: int, e: spec_fn(int, int) -> bool)
    requires
        g.wf(),
        0 <= i < g.len(),
        0 <= j < g.len(),
        is_equiv_on(e, g.len()),
        within(g.uf, e),
        e(i, j),
    ensures
        within(g.union(i, j).uf, e),
{
    let u = g.union(i, j).uf;
    assert forall|x: int, y: int| 0 <= x < u.len() && 0 <= y < u.len() && #[trigger] u[x] == #[trigger] u[y] implies e(x, y) by {
        if g.uf[x] == g.uf[y] {
        } else if g.uf[x] == g.uf[i] && g.uf[y] == g.uf[j] {
            assert(e(x, i));
            assert(e(x, j));
            assert(e(j, y));
        } else if g.uf[x] == g.uf[j] && g.uf[y] == g.uf[i] {
            assert(e(x, j));
            assert(e(j, i));
            assert(e(x, i));
            assert(e(i, y));
        } else {
            assert(g.uf[x] < g.len() && g.uf[y] < g.len());
        }
    }
}

/// `g1` is what rebuilding `g0` gives: the same nodes with canonical children,
/// every equality of `g0` kept, and congruence restored.
pub open spec fn rebuilt(g0: GraphView, g1: GraphView) -> bool {
    &&& g1.wf()
    &&& g1.len() == g0.len()
    &&& refines(g0.uf, g1.uf)
    &&& g1.canonical()
    &&& g1.congruent()
    &&& forall|i: int| 0 <= i < g0.len() ==> #[trigger] g1.nodes[i] == canon(g1.uf, g0.nodes[i])
    &&& forall|e: spec_fn(int, int) -> bool| #[trigger] congruence_of(g0, e) ==> within(g1.uf, e)
}

proof fn lemma_relabel_count(uf: Seq<usize>, from: usize, to: usize, k: nat)
    requires
        k <= uf.len(),
        from < uf.len(),
        to < uf.len(),
        uf[from as int] == from,
        uf[to as int] == to,
        from != to,
    ensures
        count_roots(relabel(uf, from, to), k) + (if from < k { 1nat } else { 0nat })
            == count_roots(uf, k),
    decreases k,
{
    if k > 0 {
        lemma_relabel_count(uf, from, to, (k - 1) as nat);
    }
}

proof fn lemma_count_roots_bound(uf: Seq<usize>, k: nat)
    requires
        k <= uf.len(),
    ensures
        count_roots(uf, k) <= k,
    decreases k,
{
    if k > 0 {
        lemma_count_roots_bound(uf, (k - 1) as nat);
    }
}

proof fn lemma_canon_after_union(g: GraphView, a: int, b: int, x: NodeView)
    requires
        g.wf(),
        0 <= a < g.len(),
        0 <= b < g.len(),
        ids_below(x.1, g.len()),
    ensures
        canon(g.union(a, b).uf, canon(g.uf, x)) == canon(g.union(a, b).uf, x),
        refines(g.uf, g.union(a, b).uf),
{
    let u = g.union(a, b).uf;
    assert(canon_ids(u, canon_ids(g.uf, x.1)) =~= canon_ids(u, x.1)) by {
        assert forall|k: int| 0 <= k < x.1.len() implies u[g.uf[#[trigger] x.1[k] as int] as int] == u[x.1[k] as int] by {
            assert(x.1[k] < g.len());
        }
    }
}

proof fn lemma_find_from_skip(g: GraphView, cn: NodeView, j: nat, m: nat)
    requires
        j <= m,
        forall|t: int| j <= t < m && t < g.len() ==> canon(g.uf, #[trigger] g.nodes[t]) != cn,
    ensures
        g.find_from(cn, j) == g.find_from(cn, m),
    decreases m - j,
{
    if j < m && j < g.len() {
        lemma_find_from_skip(g, cn, j + 1, m);
    }
}

proof fn lemma_find_from_found(g: GraphView, cn: NodeView, j: nat)
    requires
        j < g.len(),
        canon(g.uf, g.nodes[j as int]) == cn,
        forall|t: int| 0 <= t < j ==> canon(g.uf, #[trigger] g.nodes[t]) != cn,
    ensures
        g.find_from(cn, 0) == Some(j),
{
    lemma_find_from_skip(g, cn, 0, j);
}

/// With no match from `j` on, `find_from` finds none.
pub proof fn lemma_find_from_none(g: GraphView, cn: NodeView, j: nat)
    requires
        g.find_from(cn, j) is None,
    ensures
        forall|t: int| j <= t < g.len() ==> canon(g.uf, #[trigger] g.nodes[t]) != cn,
    decreases g.len() - j,
{
    if j < g.len() {
        lemma_find_from_none(g, cn, j + 1);
    }
}

/// What `find_from` returns is a match.
pub proof fn lemma_find_from_is_match(g: GraphView, cn: NodeView, j: nat)
    requires
        g.find_from(cn, j) is Some,
    ensures
        g.find_from(cn, j)->0 < g.len(),
        canon(g.uf, g.nodes[g.find_from(cn, j)->0 as int]) == cn,
    decreases g.len() - j,
{
    if j < g.len() && canon(g.uf, g.nodes[j as int]) != cn {
        lemma_find_from_is_match(g, cn, j + 1);
    }
}

proof fn lemma_canon_twice(uf: Seq<usize>, n: NodeView)
    requires
        forall|i: int| 0 <= i < uf.len() ==> uf[#[trigger] uf[i] as int] == uf[i],
        ids_below(n.1, uf.len()),
    ensures
        canon(uf, canon(uf, n)) == canon(uf, n),
{
    assert(canon_ids(uf, canon_ids(uf, n.1)) =~= canon_ids(uf, n.1));
}

/// In a canonical graph a stored node is its own canonical form.
pub proof fn lemma_canonical_node(g: GraphView, j: int)
    requires
        g.wf(),
        g.canonical(),
        0 <= j < g.len(),
    ensures
        canon(g.uf, g.nodes[j]) == g.nodes[j],
{
    assert(canon_ids(g.uf, g.nodes[j].1) =~= g.nodes[j].1);
}

/// Adding a node twice gives the same class id, and the second addition
/// leaves the graph as the first left it.
pub proof fn lemma_add_idempotent(g: GraphView, n: NodeView)
    requires
        g.wf(),
        ids_below(n.1, g.len()),
    ensures
        g.add(n).0.add(n) == g.add(n),
{
    let cn = canon(g.uf, n);
    match g.find_from(cn, 0) {
        Some(j) => {},
        None => {
            let g1 = g.add(n).0;
            assert(canon_ids(g1.uf, n.1) =~= canon_ids(g.uf, n.1));
            assert forall|t: int| 0 <= t < g.len() implies canon(g1.uf, #[trigger] g1.nodes[t])
                != cn by {
                assert(canon_ids(g1.uf, g.nodes[t].1) =~= canon_ids(g.uf, g.nodes[t].1));
                lemma_find_from_none(g, cn, 0);
            }
            lemma_canon_twice(g.uf, n);
            assert(canon_ids(g1.uf, cn.1) =~= canon_ids(g.uf, cn.1));
            lemma_find_from_found(g1, cn, g.len());
        },
    }
}

/// Nodes whose children are pairwise in one class before a rebuild are in
/// one class after it.
pub proof fn lemma_congruence_closure(g0: GraphView, g1: GraphView, i: int, j: int)
    requires
        g0.wf(),
        rebuilt(g0, g1),
        0 <= i < g0.len(),
        0 <= j < g0.len(),
        g0.nodes[i].0 == g0.nodes[j].0,
        g0.nodes[i].1.len() == g0.nodes[j].1.len(),
        forall|k: int|
            0 <= k < g0.nodes[i].1.len() ==> g0.equiv(
                #[trigger] g0.nodes[i].1[k] as int,
                g0.nodes[j].1[k] as int,
            ),
    ensures
        g1.equiv(i, j),
{
    let a = g0.nodes[i].1;
    let b = g0.nodes[j].1;
    assert forall|k: int| 0 <= k < a.len() implies g1.uf[a[k] as int] == g1.uf[b[k] as int] by {
        assert(ids_below(g0.nodes[i].1, g0.len()));
        assert(ids_below(g0.nodes[j].1, g0.len()));
        assert(g0.uf[a[k] as int] == g0.uf[b[k] as int]);
    }
    assert(canon_ids(g1.uf, a) =~= canon_ids(g1.uf, b));
    assert(g1.nodes[i] == g1.nodes[j]);
}

impl EGraph {
    /// An empty e-graph.
    pub fn new() -> (r: EGraph)
        ensures
            r@.wf(),
            r@.len() == 0,
    {
        let r = EGraph { nodes: Vec::new(), uf: Vec::new() };
        assert(r@.nodes =~= Seq::<NodeView>::empty());
        r
    }

    /// Number of nodes, which is also the number of class ids handed out.
    pub fn len(&self) -> (r: usize)
        requires
            self@.wf(),
        ensures
            r == self@.len(),
    {
        self.uf.len()
    }

    /// The canonical representative of `id`'s class.
    pub fn find(&self, id: usize) -> (r: usize)
        requires
            self@.wf(),
            id < self@.len(),
        ensures
            r == self@.uf[id as int],
            r < self@.len(),
    {
        self.uf[id]
    }

    /// The stored node that created class `id`.
    pub fn node(&self, id: usize) -> (r: &ENode)
        requires
            self@.wf(),
            id < self@.len(),
        ensures
            r@ == self@.nodes[id as int],
    {
        &self.nodes[id]
    }

    /// The ids replaced by their representatives.
    pub fn canon_ids(&self, ids: &Vec<usize>) -> (r: Vec<usize>)
        requires
            self@.wf(),
            ids_below(ids@, self@.len()),
        ensures
            r@ == canon_ids(self@.uf, ids@),
    {
        let mut r: Vec<usize> = Vec::new();
        let mut i: usize = 0;
        while i < ids.len()
            invariant
                self@.wf(),
                ids_below(ids@, self@.len()),
                i <= ids@.len(),
                r@ =~= canon_ids(self@.uf, ids@.subrange(0, i as int)),
            decreases ids@.len() - i,
        {
            assert(ids@[i as int] < self@.len());
            r.push(self.uf[ids[i]]);
            i = i + 1;
            assert(r@ =~= canon_ids(self@.uf, ids@.subrange(0, i as int)));
        }
        assert(ids@.subrange(0, i as int) =~= ids@);
        r
    }

    /// Adds a node (children are class ids of this graph) and returns its
    /// class: an existing class when a node with the same operator and the
    /// same canonical children is already present, else a new singleton class.
    pub fn add(&mut self, n: ENode) -> (r: usize)
        requires
            old(self)@.wf(),
            ids_below(n@.1, old(self)@.len()),
            old(self)@.len() < usize::MAX,
        ensures
            (final(self)@, r) == old(self)@.add(n@),
            final(self)@.wf(),
            r < final(self)@.len(),
    {
        let ghost g = self@;
        let cn = ENode { kind: n.kind, children: self.canon_ids(&n.children) };
        let mut j: usize = 0;
        while j < self.nodes.len()
            invariant
                self@ == g,
                g.wf(),
                j <= g.len(),
                cn@ == canon(g.uf, n@),
                forall|t: int| 0 <= t < j ==> canon(g.uf, #[trigger] g.nodes[t]) != cn@,
            decreases g.len() - j,
        {
            assert(self.nodes@[j as int]@ == g.nodes[j as int]);
            assert(ids_below(g.nodes[j as int].1, g.len()));
            let cj = ENode { kind: self.nodes[j].kind, children: self.canon_ids(&self.nodes[j].children) };
            if cj.same(&cn) {
                proof {
                    lemma_find_from_found(g, cn@, j as nat);
                }
                return self.uf[j];
            }
            j = j + 1;
        }
        proof {
            lemma_find_from_skip(g, cn@, 0, g.len());
        }
        let id = self.uf.len();
        self.nodes.push(cn);
        self.uf.push(id);
        proof {
            let g1 = self@;
            assert(g1.nodes =~= g.nodes.push(cn@));
            assert forall|i: int| 0 <= i < g1.len() implies ids_below(#[trigger] g1.nodes[i].1, g1.len()) by {
                if i < g.len() {
                    assert(ids_below(g.nodes[i].1, g.len()));
                } else {
                    assert(ids_below(n@.1, g.len()));
                    assert forall|k: int| 0 <= k < cn@.1.len() implies (#[trigger] cn@.1[k]) < g1.len() by {
                        assert(n@.1[k] < g.len());
                    }
                }
            }
            assert forall|i: int| 0 <= i < g1.len() implies g1.uf[#[trigger] g1.uf[i] as int] == g1.uf[i] by {
                if i < g.len() {
                    assert(g.uf[i] < g.len());
                }
            }
        }
        id
    }

    /// Merges the classes of `a` and `b` and returns the surviving
    /// representative (the older one). Merging one class with itself changes
    /// nothing. Congruence is repaired by `rebuild`, not here.
    pub fn union(&mut self, a: usize, b: usize) -> (r: usize)
        requires
            old(self)@.wf(),
            a < old(self)@.len(),
            b < old(self)@.len(),
        ensures
            final(self)@ == old(self)@.union(a as int, b as int),
            final(self)@.wf(),
            r == final(self)@.uf[a as int],
            r == final(self)@.uf[b as int],
    {
        let ghost g = self@;
        let ra = self.uf[a];
        let rb = self.uf[b];
        if ra == rb {
            return ra;
        }
        let (to, from) = if ra < rb { (ra, rb) } else { (rb, ra) };
        let mut i: usize = 0;
        while i < self.uf.len()
            invariant
                g.wf(),
                self.nodes@ == old(self).nodes@,
                self.uf@.len() == g.len(),
                i <= g.len(),
                to < g.len(),
                forall|t: int| 0 <= t < i ==> self.uf@[t] == relabel(g.uf, from, to)[t],
                forall|t: int| i <= t < g.len() ==> self.uf@[t] == g.uf[t],
            decreases g.len() - i,
        {
            if self.uf[i] == from {
                self.uf.set(i, to);
            }
            i = i + 1;
        }
        proof {
            assert(self.uf@ =~= relabel(g.uf, from, to));
            assert(self@.nodes =~= g.nodes);
            let g1 = self@;
            assert forall|t: int| 0 <= t < g1.len() implies g1.uf[#[trigger] g1.uf[t] as int] == g1.uf[t] by {
                assert(g.uf[t] < g.len());
                assert(g.uf[to as int] == to);
            }
        }
        to
    }

    /// Two distinct classes holding equal stored nodes, if there are any.
    fn find_collision(&self) -> (r: Option<(usize, usize)>)
        requires
            self@.wf(),
        ensures
            match r {
                Some((i, j)) => i < self@.len() && j < self@.len() && self@.nodes[i as int]
                    == self@.nodes[j as int] && self@.uf[i as int] != self@.uf[j as int],
                None => self@.congruent(),
            },
    {
        let ghost g = self@;
        let n = self.nodes.len();
        let mut i: usize = 0;
        while i < n
            invariant
                self@ == g,
                g.wf(),
                n == g.len(),
                i <= n,
                forall|p: int, q: int|
                    0 <= p < i && 0 <= q < n && #[trigger] g.nodes[p] == #[trigger] g.nodes[q]
                        ==> g.uf[p] == g.uf[q],
            decreases n - i,
        {
            let mut j: usize = 0;
            while j < n
                invariant
                    self@ == g,
                    g.wf(),
                    n == g.len(),
                    i < n,
                    j <= n,
                    forall|p: int, q: int|
                        0 <= p < i && 0 <= q < n && #[trigger] g.nodes[p] == #[trigger] g.nodes[q]
                            ==> g.uf[p] == g.uf[q],
                    forall|q: int| 0 <= q < j && g.nodes[i as int] == #[trigger] g.nodes[q] ==> g.uf[i as int] == g.uf[q],
                decreases n - j,
            {
                assert(self.nodes@[i as int]@ == g.nodes[i as int]);
                assert(self.nodes@[j as int]@ == g.nodes[j as int]);
                if self.uf[i] != self.uf[j] && self.nodes[i].same(&self.nodes[j]) {
                    return Some((i, j));
                }
                j = j + 1;
            }
            i = i + 1;
        }
        None
    }

    /// Restores the invariants after a batch of unions: every stored child
    /// reference becomes canonical, and classes holding equal nodes are merged
    /// until no two classes do.
    pub fn rebuild(&mut self)
        requires
            old(self)@.wf(),
        ensures
            rebuilt(old(self)@, final(self)@),
            old(self)@.canonical() && old(self)@.congruent() ==> final(self)@ == old(self)@,
    {
        let ghost g0 = self@;
        proof {
            lemma_count_roots_bound(g0.uf, g0.len());
        }
        loop
            invariant
                g0.wf(),
                self@.wf(),
                self@.len() == g0.len(),
                refines(g0.uf, self@.uf),
                forall|i: int| 0 <= i < g0.len() ==> canon(self@.uf, #[trigger] self@.nodes[i]) == canon(self@.uf, g0.nodes[i]),
                forall|e: spec_fn(int, int) -> bool| #[trigger] congruence_of(g0, e) ==> within(self@.uf, e),
                g0.canonical() && g0.congruent() ==> self@ == g0,
            ensures
                rebuilt(g0, self@),
                g0.canonical() && g0.congruent() ==> self@ == g0,
            decreases count_roots(self@.uf, g0.len()),
        {
            let ghost g = self@;
            self.canonicalize_all();
            let ghost g1 = self@;
            proof {
                assert forall|i: int| 0 <= i < g0.len() implies #[trigger] g1.nodes[i] == canon(g1.uf, g0.nodes[i]) by {
                    assert(g1.nodes[i] == canon(g.uf, g.nodes[i]));
                }
                if g0.canonical() && g0.congruent() {
                    assert forall|i: int| 0 <= i < g0.len() implies #[trigger] g1.nodes[i] == g0.nodes[i] by {
                        lemma_canonical_node(g0, i);
                    }
                    assert(g1.nodes =~= g0.nodes);
                    assert(g1 == g0);
                }
            }
            match self.find_collision() {
                Some((i, j)) => {
                    self.union(i, j);
                    proof {
                        assert forall|e: spec_fn(int, int) -> bool| #[trigger] congruence_of(g0, e) implies within(self@.uf, e) by {
                            let a = g0.nodes[i as int];
                            let b = g0.nodes[j as int];
                            assert(canon(g1.uf, a) == canon(g1.uf, b));
                            assert(ids_below(a.1, g0.len()));
                            assert(ids_below(b.1, g0.len()));
                            assert(a.1.len() == canon(g1.uf, a).1.len());
                            assert(b.1.len() == canon(g1.uf, b).1.len());
                            assert forall|k: int| 0 <= k < a.1.len() implies e(#[trigger] a.1[k] as int, b.1[k] as int) by {
                                assert(canon(g1.uf, a).1[k] == canon(g1.uf, b).1[k]);
                                assert(a.1[k] < g0.len());
                                assert(b.1[k] < g0.len());
                                assert(g1.uf[a.1[k] as int] == g1.uf[b.1[k] as int]);
                            }
                            assert(e(i as int, j as int));
                            lemma_union_within(g1, i as int, j as int, e);
                        }
                        let g2 = self@;
                        assert forall|t: int| 0 <= t < g0.len() implies canon(g2.uf, #[trigger] g2.nodes[t]) == canon(g2.uf, g0.nodes[t]) by {
                            assert(ids_below(g0.nodes[t].1, g0.len()));
                            lemma_canon_after_union(g1, i as int, j as int, g0.nodes[t]);
                        }
                        lemma_canon_after_union(g1, i as int, j as int, g0.nodes[0]);
                        let ri = g1.uf[i as int];
                        let rj = g1.uf[j as int];
                        if ri < rj {
                            lemma_relabel_count(g1.uf, rj, ri, g0.len());
                        } else {
                            lemma_relabel_count(g1.uf, ri, rj, g0.len());
                        }
                    }
                },
                None => {
                    break;
                },
            }
        }
    }

    /// Rewrites every stored child reference to its representative.
    fn canonicalize_all(&mut self)
        requires
            old(self)@.wf(),
        ensures
            final(self)@.wf(),
            final(self)@.uf == old(self)@.uf,
            final(self)@.canonical(),
            forall|i: int| 0 <= i < old(self)@.len() ==> #[trigger] final(self)@.nodes[i] == canon(old(self)@.uf, old(self)@.nodes[i]),
    {
        let ghost g = self@;
        let mut i: usize = 0;
        while i < self.nodes.len()
            invariant
                g.wf(),
                self.uf@ == g.uf,
                self.nodes@.len() == g.len(),
                i <= g.len(),
                forall|t: int| 0 <= t < i ==> #[trigger] self.nodes@[t]@ == canon(g.uf, g.nodes[t]),
                forall|t: int| i <= t < g.len() ==> #[trigger] self.nodes@[t]@ == g.nodes[t],
            decreases g.len() - i,
        {
            assert(self.nodes@[i as int]@ == g.nodes[i as int]);
            assert(ids_below(g.nodes[i as int].1, g.len()));
            let c = self.canon_ids(&self.nodes[i].children);
            let kind = self.nodes[i].kind;
            self.nodes.set(i, ENode { kind, children: c });
            i = i + 1;
        }
        proof {
            let g1 = self@;
            assert forall|t: int| 0 <= t < g.len() implies #[trigger] g1.nodes[t] == canon(g.uf, g.nodes[t]) by {
                assert(self.nodes@[t]@ == canon(g.uf, g.nodes[t]));
            }
            assert forall|t: int| 0 <= t < g1.len() implies ids_below(#[trigger] g1.nodes[t].1, g1.len()) by {
                assert(ids_below(g.nodes[t].1, g.len()));
                assert forall|k: int| 0 <= k < g1.nodes[t].1.len() implies (#[trigger] g1.nodes[t].1[k]) < g1.len() by {
                    assert(g.nodes[t].1[k] < g.len());
                }
            }
            assert forall|t: int, k: int| 0 <= t < g1.len() && 0 <= k < g1.nodes[t].1.len() implies g1.uf[
                #[trigger] g1.nodes[t].1[k] as int] == g1.nodes[t].1[k] by {
                assert(ids_below(g.nodes[t].1, g.len()));
                assert(g.nodes[t].1[k] < g.len());
            }
        }
    }
}

} // verus!
