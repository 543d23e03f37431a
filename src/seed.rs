//! Seeding an e-graph with a term, after checking the term against an
//! alphabet's declared shapes.
use vstd::prelude::*;
use crate::egraph::{EGraph, GraphView, canon, canon_ids, ids_below};
use crate::term::{Alphabet, ENode, NodeView, Term, shape_ok, term_wf};
use crate::pattern::{graph_extends, lemma_add_extends, lemma_extends_trans};
use crate::extract::{CostModel, term_in, term_cost, extracted, list_cost};

verus! {

/// Why a term was refused.
#[derive(Clone, Copy, Debug, PartialEq, Eq, Structural)]
pub enum ShapeError {
    /// The term has no nodes.
    Empty,
    /// The node at this position names a child that does not come before it.
    ChildOrder(usize),
    /// The node at this position has a child count its kind does not allow.
    Arity(usize),
}

/// Every node of `t` has a shape that the alphabet allows.
pub open spec fn shapes_ok(arities: Seq<crate::term::Arity>, t: Seq<NodeView>) -> bool {
    forall|i: int| 0 <= i < t.len() ==> shape_ok(arities, (#[trigger] t[i]).0, t[i].1.len())
}

/// Checks that `t` is a well-formed term whose every node has a shape the
/// alphabet declares.
pub fn check_term(alphabet: &Alphabet, t: &Term) -> (r: Result<(), ShapeError>)
    ensures
        r is Ok <==> term_wf(t@) && shapes_ok(alphabet.arities@, t@),
        r == Err::<(), ShapeError>(ShapeError::Empty) <==> t@.len() == 0,
{
    if t.nodes.len() == 0 {
        return Err(ShapeError::Empty);
    }
    let mut i: usize = 0;
    while i < t.nodes.len()
        invariant
            i <= t@.len(),
            t@.len() > 0,
            t@.len() == t.nodes@.len(),
            forall|p: int, k: int| 0 <= p < i && 0 <= k < t@[p].1.len() ==> (#[trigger] t@[p].1[k]) < p,
            forall|p: int| 0 <= p < i ==> shape_ok(alphabet.arities@, (#[trigger] t@[p]).0, t@[p].1.len()),
        decreases t@.len() - i,
    {
        let n = &t.nodes[i];
        assert(n@ == t@[i as int]);
        if !alphabet.accepts(n.kind, n.children.len()) {
            return Err(ShapeError::Arity(i));
        }
        let mut k: usize = 0;
        while k < n.children.len()
            invariant
                i < t@.len(),
                t@.len() > 0,
                n@ == t@[i as int],
                k <= n@.1.len(),
                forall|q: int| 0 <= q < k ==> (#[trigger] n@.1[q]) < i,
            decreases n@.1.len() - k,
        {
            if n.children[k] >= i {
                return Err(ShapeError::ChildOrder(i));
            }
            k = k + 1;
        }
        i = i + 1;
    }
    Ok(())
}

/// A term represented in a class stays represented as the graph grows, and
/// in any class equal to it.
pub proof fn lemma_term_in_extends(g1: GraphView, g2: GraphView, t: Seq<NodeView>, i: nat, c: usize, c2: usize)
    requires
        g1.wf(),
        g2.wf(),
        graph_extends(g1, g2),
        c < g1.len(),
        c2 < g2.len(),
        g2.uf[c as int] == g2.uf[c2 as int],
        term_in(g1, t, i, c),
    ensures
        term_in(g2, t, i, c2),
    decreases i,
{
    let j = choose|j: int|
        0 <= j < g1.len() && #[trigger] g1.uf[j] == g1.uf[c as int] && g1.nodes[j].0 == t[i as int].0
            && g1.nodes[j].1.len() == t[i as int].1.len() && forall|k: int|
            0 <= k < t[i as int].1.len() ==> (#[trigger] t[i as int].1[k]) < i && term_in(
                g1,
                t,
                t[i as int].1[k] as nat,
                g1.nodes[j].1[k],
            );
    assert(g2.uf[j] == g2.uf[c as int]);
    assert(canon(g2.uf, g2.nodes[j]) == canon(g2.uf, g1.nodes[j]));
    assert(g2.nodes[j].1.len() == canon(g2.uf, g2.nodes[j]).1.len());
    assert(ids_below(g1.nodes[j].1, g1.len()));
    assert(ids_below(g2.nodes[j].1, g2.len()));
    assert forall|k: int| 0 <= k < t[i as int].1.len() implies (#[trigger] t[i as int].1[k]) < i && term_in(
        g2,
        t,
        t[i as int].1[k] as nat,
        g2.nodes[j].1[k],
    ) by {
        assert(canon(g2.uf, g2.nodes[j]).1[k] == canon(g2.uf, g1.nodes[j]).1[k]);
        assert(g1.nodes[j].1[k] < g1.len());
        assert(g2.nodes[j].1[k] < g2.len());
        lemma_term_in_extends(g1, g2, t, t[i as int].1[k] as nat, g1.nodes[j].1[k], g2.nodes[j].1[k]);
    }
    assert(g2.uf[j] == g2.uf[c2 as int]);
}

impl EGraph {
    /// Adds every node of `t`, children first, after checking its shapes.
    /// Returns the class of the root, which then represents the whole term.
    pub fn add_term(&mut self, alphabet: &Alphabet, t: &Term) -> (r: Result<usize, ShapeError>)
        requires
            old(self)@.wf(),
            old(self)@.len() + t@.len() <= usize::MAX,
        ensures
            final(self)@.wf(),
            graph_extends(old(self)@, final(self)@),
            r is Ok <==> term_wf(t@) && shapes_ok(alphabet.arities@, t@),
            match r {
                Ok(c) => c < final(self)@.len() && term_in(final(self)@, t@, (t@.len() - 1) as nat, c),
                Err(_) => final(self)@ == old(self)@,
            },
    {
        let ghost g0 = self@;
        proof {
            crate::matcher::lemma_graph_extends_refl(g0);
        }
        match check_term(alphabet, t) {
            Err(e) => {
                return Err(e);
            },
            Ok(()) => {},
        }
        let mut ids: Vec<usize> = Vec::new();
        let mut i: usize = 0;
        while i < t.nodes.len()
            invariant
                g0 == old(self)@,
                g0.wf(),
                self@.wf(),
                graph_extends(g0, self@),
                term_wf(t@),
                t@.len() == t.nodes@.len(),
                i <= t@.len(),
                self@.len() <= g0.len() + i,
                g0.len() + t@.len() <= usize::MAX,
                ids@.len() == i,
                forall|p: int| 0 <= p < i ==> (#[trigger] ids@[p]) < self@.len() && term_in(self@, t@, p as nat, ids@[p]),
            decreases t@.len() - i,
        {
            let n = &t.nodes[i];
            assert(n@ == t@[i as int]);
            let mut ch: Vec<usize> = Vec::new();
            let mut k: usize = 0;
            while k < n.children.len()
                invariant
                    term_wf(t@),
                    n@ == t@[i as int],
                    i < t@.len(),
                    ids@.len() == i,
                    k <= n@.1.len(),
                    ch@.len() == k,
                    forall|q: int| 0 <= q < k ==> #[trigger] ch@[q] == ids@[n@.1[q] as int],
                decreases n@.1.len() - k,
            {
                assert(n@.1[k as int] < i);
                ch.push(ids[n.children[k]]);
                k = k + 1;
            }
            let ghost g1 = self@;
            let ghost chv = ch@;
            proof {
                assert forall|q: int| 0 <= q < chv.len() implies (#[trigger] chv[q]) < g1.len() by {
                    assert(n@.1[q] < i);
                    assert(ids@[n@.1[q] as int] < g1.len());
                }
            }
            let c = self.add(ENode::new(n.kind, ch));
            proof {
                let g2 = self@;
                lemma_add_extends(g1, (n@.0, chv));
                lemma_extends_trans(g0, g1, g2);
                let cn = canon(g1.uf, (n@.0, chv));
                let j: int = match g1.find_from(cn, 0) {
                    Some(j) => {
                        crate::egraph::lemma_find_from_is_match(g1, cn, 0);
                        j as int
                    },
                    None => g1.len() as int,
                };
                assert(0 <= j < g2.len());
                assert(g2.uf[j] == g2.uf[c as int]);
                assert(g2.nodes[j].0 == n@.0);
                assert(ids_below(g2.nodes[j].1, g2.len()));
                if j < g1.len() {
                    assert(canon(g1.uf, g1.nodes[j]) == cn);
                    assert(canon(g1.uf, g1.nodes[j]).1.len() == g1.nodes[j].1.len());
                    assert(g2.nodes[j] == g1.nodes[j]);
                } else {
                    assert(g2.nodes[j] == cn);
                }
                assert(g2.nodes[j].1.len() == chv.len());
                assert(chv.len() == t@[i as int].1.len());
                assert forall|q: int| 0 <= q < chv.len() implies g2.uf[#[trigger] chv[q] as int] == g2.uf[g2.nodes[j].1[q] as int]
                    && g2.nodes[j].1.len() == chv.len() by {
                    assert(chv[q] < g1.len());
                    if j < g1.len() {
                        assert(canon(g1.uf, g1.nodes[j]) == cn);
                        assert(canon(g1.uf, g1.nodes[j]).1.len() == g1.nodes[j].1.len());
                        assert(cn.1[q] == canon_ids(g1.uf, g1.nodes[j].1)[q]);
                        assert(g2.nodes[j] == g1.nodes[j]);
                        assert(ids_below(g1.nodes[j].1, g1.len()));
                        assert(g1.nodes[j].1[q] < g1.len());
                    } else {
                        assert(g2.nodes[j] == cn);
                        assert(g1.uf[chv[q] as int] < g1.len());
                    }
                }
                assert forall|p: int| 0 <= p < i implies (#[trigger] ids@[p]) < g2.len() && term_in(g2, t@, p as nat, ids@[p]) by {
                    lemma_term_in_extends(g1, g2, t@, p as nat, ids@[p], ids@[p]);
                }
                assert forall|q: int| 0 <= q < t@[i as int].1.len() implies (#[trigger] t@[i as int].1[q]) < i && term_in(
                    g2,
                    t@,
                    t@[i as int].1[q] as nat,
                    g2.nodes[j].1[q],
                ) by {
                    let p = t@[i as int].1[q];
                    assert(p < i);
                    assert(chv[q] == ids@[p as int]);
                    lemma_term_in_extends(g2, g2, t@, p as nat, ids@[p as int], g2.nodes[j].1[q]);
                }
                assert(term_in(g2, t@, i as nat, c));
            }
            ids.push(c);
            proof {
                assert forall|p: int| 0 <= p < i + 1 implies (#[trigger] ids@[p]) < self@.len() && term_in(self@, t@, p as nat, ids@[p]) by {}
            }
            i = i + 1;
        }
        let last = ids.len() - 1;
        Ok(ids[last])
    }
}

/// No two nodes share a class.
pub open spec fn singleton_classes(g: GraphView) -> bool {
    forall|i: int| 0 <= i < g.len() ==> #[trigger] g.uf[i] == i
}

proof fn lemma_list_costs_agree(
    cm: &CostModel,
    t1: Seq<NodeView>,
    b1: nat,
    ch1: Seq<usize>,
    t2: Seq<NodeView>,
    b2: nat,
    ch2: Seq<usize>,
)
    requires
        ch1.len() == ch2.len(),
        forall|k: int| 0 <= k < ch1.len() ==> (#[trigger] ch1[k]) < b1 && ch2[k] < b2 && term_cost(cm, t1, ch1[k] as nat)
            == term_cost(cm, t2, ch2[k] as nat),
    ensures
        list_cost(cm, t1, b1, ch1) == list_cost(cm, t2, b2, ch2),
    decreases ch1.len(),
{
    if ch1.len() > 0 {
        let n = ch1.len() - 1;
        assert(ch1[n] < b1);
        lemma_list_costs_agree(cm, t1, b1, ch1.drop_last(), t2, b2, ch2.drop_last());
    }
}

/// Where no two nodes share a class, all terms a class represents cost the same.
pub proof fn lemma_singleton_costs_agree(
    g: GraphView,
    cm: &CostModel,
    t1: Seq<NodeView>,
    i1: nat,
    t2: Seq<NodeView>,
    i2: nat,
    c: usize,
)
    requires
        g.wf(),
        singleton_classes(g),
        c < g.len(),
        term_in(g, t1, i1, c),
        term_in(g, t2, i2, c),
    ensures
        term_cost(cm, t1, i1) == term_cost(cm, t2, i2),
    decreases i1,
{
    let j1 = choose|j: int|
        0 <= j < g.len() && #[trigger] g.uf[j] == g.uf[c as int] && g.nodes[j].0 == t1[i1 as int].0
            && g.nodes[j].1.len() == t1[i1 as int].1.len() && forall|k: int|
            0 <= k < t1[i1 as int].1.len() ==> (#[trigger] t1[i1 as int].1[k]) < i1 && term_in(
                g,
                t1,
                t1[i1 as int].1[k] as nat,
                g.nodes[j].1[k],
            );
    let j2 = choose|j: int|
        0 <= j < g.len() && #[trigger] g.uf[j] == g.uf[c as int] && g.nodes[j].0 == t2[i2 as int].0
            && g.nodes[j].1.len() == t2[i2 as int].1.len() && forall|k: int|
            0 <= k < t2[i2 as int].1.len() ==> (#[trigger] t2[i2 as int].1[k]) < i2 && term_in(
                g,
                t2,
                t2[i2 as int].1[k] as nat,
                g.nodes[j].1[k],
            );
    assert(g.uf[j1] == j1 && g.uf[j2] == j2 && g.uf[c as int] == c);
    assert(j1 == j2);
    let ch1 = t1[i1 as int].1;
    let ch2 = t2[i2 as int].1;
    assert(ids_below(g.nodes[j1].1, g.len()));
    assert forall|k: int| 0 <= k < ch1.len() implies (#[trigger] ch1[k]) < i1 && ch2[k] < i2 && term_cost(cm, t1, ch1[k] as nat)
        == term_cost(cm, t2, ch2[k] as nat) by {
        assert(ch1[k] < i1);
        assert(ch2[k] < i2);
        assert(g.nodes[j1].1[k] < g.len());
        lemma_singleton_costs_agree(g, cm, t1, ch1[k] as nat, t2, ch2[k] as nat, g.nodes[j1].1[k]);
    }
    lemma_list_costs_agree(cm, t1, i1, ch1, t2, i2, ch2);
}

/// Where no rule ever merged anything, so that no two nodes of the final
/// graph share a class, extraction returns exactly the input's cost.
pub proof fn lemma_extraction_same_without_merges(
    g0: GraphView,
    g1: GraphView,
    cm: &CostModel,
    t: Seq<NodeView>,
    root: usize,
    cost: u64,
    out: Seq<NodeView>,
)
    requires
        g0.wf(),
        g1.wf(),
        root < g0.len(),
        term_wf(t),
        term_in(g0, t, (t.len() - 1) as nat, root),
        graph_extends(g0, g1),
        singleton_classes(g1),
        extracted(g1, cm, root, cost, out),
    ensures
        cost == term_cost(cm, t, (t.len() - 1) as nat),
{
    lemma_term_in_extends(g0, g1, t, (t.len() - 1) as nat, root, root);
    lemma_singleton_costs_agree(g1, cm, out, (out.len() - 1) as nat, t, (t.len() - 1) as nat, root);
}

/// Extraction does no worse than the input: a term seeded into a graph that
/// then only grew (by rule application and rebuilding) costs at least what
/// extraction from the seeded class returns.
pub proof fn lemma_extraction_no_worse(
    g0: GraphView,
    g1: GraphView,
    cm: &CostModel,
    t: Seq<NodeView>,
    root: usize,
    cost: u64,
    out: Seq<NodeView>,
)
    requires
        g0.wf(),
        g1.wf(),
        root < g0.len(),
        term_wf(t),
        term_in(g0, t, (t.len() - 1) as nat, root),
        graph_extends(g0, g1),
        term_cost(cm, t, (t.len() - 1) as nat) <= u64::MAX,
        extracted(g1, cm, root, cost, out),
    ensures
        cost <= term_cost(cm, t, (t.len() - 1) as nat),
{
    lemma_term_in_extends(g0, g1, t, (t.len() - 1) as nat, root, root);
}

} // verus!
