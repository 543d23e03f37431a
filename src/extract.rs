//! Extraction: the cheapest term in a class under a cost model.
//!
//! A table holds the best known cost of each class, starting from "none".
//! Each pass recomputes, for every node, its own cost plus the best costs of
//! its children's classes, and lowers its class's entry where that is
//! cheaper; passes repeat until one lowers nothing. The cheapest term is then
//! read back by choosing, at each class, a node whose cost meets the entry.
use vstd::prelude::*;
use crate::egraph::{EGraph, GraphView, ids_below, canon, canon_ids};
use crate::term::{ENode, Kind, NodeView, Term, term_wf};
use crate::pattern::graph_extends;

verus! {

/// A cost model: a weight for each listed operator tag, and one weight for
/// every other node (leaves and unlisted operators).
pub struct CostModel {
    pub op_costs: Vec<u64>,
    pub default_cost: u64,
}

/// The weight of one node of this kind.
pub open spec fn kind_cost(op_costs: Seq<u64>, default_cost: u64, k: Kind) -> nat {
    match k {
        Kind::Op(t) => if t < op_costs.len() { op_costs[t as int] as nat } else { default_cost as nat },
        _ => default_cost as nat,
    }
}

impl CostModel {
    pub open spec fn cost_of(&self, k: Kind) -> nat {
        kind_cost(self.op_costs@, self.default_cost, k)
    }

    /// The weight of one node of this kind.
    pub fn weight(&self, k: Kind) -> (r: u64)
        ensures
            r == self.cost_of(k),
    {
        match k {
            Kind::Op(t) => if (t as usize) < self.op_costs.len() {
                self.op_costs[t as usize]
            } else {
                self.default_cost
            },
            _ => self.default_cost,
        }
    }
}

/// Every node weighs at least one.
pub open spec fn positive_weights(cm: &CostModel) -> bool {
    &&& cm.default_cost > 0
    &&& forall|t: int| 0 <= t < cm.op_costs@.len() ==> (#[trigger] cm.op_costs@[t]) > 0
}

/// The sum of the table entries of the classes of `ids`; `None` when one of
/// them has no entry.
pub open spec fn sum_best(best: Seq<Option<u64>>, uf: Seq<usize>, ids: Seq<usize>) -> Option<nat>
    decreases ids.len(),
{
    if ids.len() == 0 {
        Some(0)
    } else {
        match (best[uf[ids.last() as int] as int], sum_best(best, uf, ids.drop_last())) {
            (Some(a), Some(b)) => Some(a as nat + b),
            _ => None,
        }
    }
}

/// The cost of node `n` from the table: its own weight plus the entries of
/// its children's classes, if all are known and the total fits in a `u64`.
pub open spec fn cand(g: GraphView, best: Seq<Option<u64>>, cm: &CostModel, n: NodeView) -> Option<nat> {
    match sum_best(best, g.uf, n.1) {
        Some(s) => if cm.cost_of(n.0) + s <= u64::MAX { Some(cm.cost_of(n.0) + s) } else { None },
        None => None,
    }
}

/// No node of `g` is cheaper than the table entry of its class.
pub open spec fn table_fixpoint(g: GraphView, best: Seq<Option<u64>>, cm: &CostModel) -> bool {
    &&& best.len() == g.len()
    &&& forall|j: int| 0 <= j < g.len() && (#[trigger] cand(g, best, cm, g.nodes[j])) is Some ==> match best[g.uf[j] as int] {
        Some(b) => b <= cand(g, best, cm, g.nodes[j])->0,
        None => false,
    }
}

/// Every table entry is the cost from the table of some node of its class.
pub open spec fn table_attained(g: GraphView, best: Seq<Option<u64>>, cm: &CostModel) -> bool {
    forall|c: int| 0 <= c < g.len() && (#[trigger] best[c]) is Some ==> exists|j: int|
        0 <= j < g.len() && #[trigger] g.uf[j] == c && cand(g, best, cm, g.nodes[j]) == Some(best[c]->0 as nat)
}

/// The potential that every lowering of an entry decreases.
pub open spec fn potential(best: Seq<Option<u64>>) -> nat
    decreases best.len(),
{
    if best.len() == 0 {
        0
    } else {
        potential(best.drop_last()) + match best.last() {
            Some(v) => v as nat,
            None => u64::MAX as nat + 1,
        }
    }
}

/// Entry `b` is lower than entry `a`.
pub open spec fn lower(b: Option<u64>, a: Option<u64>) -> bool {
    match (b, a) {
        (Some(x), Some(y)) => x < y,
        (Some(_), None) => true,
        _ => false,
    }
}

/// The cost of the subterm of `t` rooted at position `i`: its weight plus the
/// costs of its children (a shared child counts once per occurrence).
pub open spec fn term_cost(cm: &CostModel, t: Seq<NodeView>, i: nat) -> nat
    decreases i, 1nat, 0nat,
{
    if i >= t.len() {
        0
    } else {
        cm.cost_of(t[i as int].0) + list_cost(cm, t, i, t[i as int].1)
    }
}

/// The summed costs of the subterms at positions `ch`, each below `bound`.
pub open spec fn list_cost(cm: &CostModel, t: Seq<NodeView>, bound: nat, ch: Seq<usize>) -> nat
    decreases bound, 0nat, ch.len(),
{
    if ch.len() == 0 {
        0
    } else {
        list_cost(cm, t, bound, ch.drop_last()) + if ch.last() < bound {
            term_cost(cm, t, ch.last() as nat)
        } else {
            0
        }
    }
}

/// The subterm of `t` at position `i` is represented in class `c` of `g`:
/// the class holds a node of the same kind whose children's classes
/// represent the child subterms.
pub open spec fn term_in(g: GraphView, t: Seq<NodeView>, i: nat, c: usize) -> bool
    decreases i,
{
    i < t.len() && exists|j: int|
        0 <= j < g.len() && #[trigger] g.uf[j] == g.uf[c as int] && g.nodes[j].0 == t[i as int].0
            && g.nodes[j].1.len() == t[i as int].1.len() && forall|k: int|
            0 <= k < t[i as int].1.len() ==> (#[trigger] t[i as int].1[k]) < i && term_in(
                g,
                t,
                t[i as int].1[k] as nat,
                g.nodes[j].1[k],
            )
}

proof fn lemma_child_le_list(cm: &CostModel, t: Seq<NodeView>, bound: nat, ch: Seq<usize>, k: int)
    requires
        0 <= k < ch.len(),
        ch[k] < bound,
    ensures
        term_cost(cm, t, ch[k] as nat) <= list_cost(cm, t, bound, ch),
    decreases ch.len(),
{
    if k < ch.len() - 1 {
        lemma_child_le_list(cm, t, bound, ch.drop_last(), k);
    }
}

proof fn lemma_sum_le_list(
    g: GraphView,
    best: Seq<Option<u64>>,
    cm: &CostModel,
    t: Seq<NodeView>,
    bound: nat,
    ids: Seq<usize>,
    ch: Seq<usize>,
)
    requires
        ids.len() == ch.len(),
        forall|k: int| 0 <= k < ch.len() ==> (#[trigger] ch[k]) < bound,
        forall|k: int| 0 <= k < ids.len() ==> (#[trigger] best[g.uf[ids[k] as int] as int]) is Some
            && best[g.uf[ids[k] as int] as int]->0 <= term_cost(cm, t, ch[k] as nat),
    ensures
        sum_best(best, g.uf, ids) is Some,
        sum_best(best, g.uf, ids)->0 <= list_cost(cm, t, bound, ch),
    decreases ids.len(),
{
    if ids.len() > 0 {
        let n = ids.len() - 1;
        assert(best[g.uf[ids[n] as int] as int] is Some);
        assert(ch[n] < bound);
        lemma_sum_le_list(g, best, cm, t, bound, ids.drop_last(), ch.drop_last());
    }
}

/// At the fixpoint, the table entry of a class is at most the cost of any
/// term that the class represents (when that cost fits in a `u64`).
pub proof fn lemma_table_below_term(
    g: GraphView,
    best: Seq<Option<u64>>,
    cm: &CostModel,
    t: Seq<NodeView>,
    i: nat,
    c: usize,
)
    requires
        g.wf(),
        table_fixpoint(g, best, cm),
        c < g.len(),
        term_in(g, t, i, c),
        term_cost(cm, t, i) <= u64::MAX,
    ensures
        best[g.uf[c as int] as int] is Some,
        best[g.uf[c as int] as int]->0 <= term_cost(cm, t, i),
    decreases i,
{
    let j = choose|j: int|
        0 <= j < g.len() && #[trigger] g.uf[j] == g.uf[c as int] && g.nodes[j].0 == t[i as int].0
            && g.nodes[j].1.len() == t[i as int].1.len() && forall|k: int|
            0 <= k < t[i as int].1.len() ==> (#[trigger] t[i as int].1[k]) < i && term_in(
                g,
                t,
                t[i as int].1[k] as nat,
                g.nodes[j].1[k],
            );
    let ids = g.nodes[j].1;
    let ch = t[i as int].1;
    assert(ids_below(ids, g.len()));
    assert forall|k: int| 0 <= k < ids.len() implies (#[trigger] best[g.uf[ids[k] as int] as int]) is Some
        && best[g.uf[ids[k] as int] as int]->0 <= term_cost(cm, t, ch[k] as nat) by {
        assert(ch[k] < i);
        assert(ids[k] < g.len());
        lemma_child_le_list(cm, t, i, ch, k);
        lemma_table_below_term(g, best, cm, t, ch[k] as nat, ids[k]);
        assert(g.uf[ids[k] as int] < g.len());
        assert(g.uf[g.uf[ids[k] as int] as int] == g.uf[ids[k] as int]);
    }
    assert forall|k: int| 0 <= k < ch.len() implies (#[trigger] ch[k]) < i by {
        assert(ch[k] < i);
    }
    lemma_sum_le_list(g, best, cm, t, i, ids, ch);
    assert(cand(g, best, cm, g.nodes[j]) is Some);
}

/// The views of a list of nodes.
pub open spec fn nodes_view(v: Seq<ENode>) -> Seq<NodeView> {
    v.map_values(|n: ENode| n@)
}

/// Each child position comes before its parent.
pub open spec fn children_before(t: Seq<NodeView>) -> bool {
    forall|i: int, k: int| 0 <= i < t.len() && 0 <= k < t[i].1.len() ==> (#[trigger] t[i].1[k]) < i
}

/// `t2` starts with `t`.
pub open spec fn is_prefix(t: Seq<NodeView>, t2: Seq<NodeView>) -> bool {
    t.len() <= t2.len() && forall|p: int| 0 <= p < t.len() ==> #[trigger] t2[p] == t[p]
}

proof fn lemma_cost_prefix(cm: &CostModel, t: Seq<NodeView>, t2: Seq<NodeView>, i: nat)
    requires
        children_before(t),
        is_prefix(t, t2),
        i < t.len(),
    ensures
        term_cost(cm, t2, i) == term_cost(cm, t, i),
    decreases i, 1nat, 0nat,
{
    assert(t2[i as int] == t[i as int]);
    lemma_list_cost_prefix(cm, t, t2, i, t[i as int].1);
}

proof fn lemma_list_cost_prefix(cm: &CostModel, t: Seq<NodeView>, t2: Seq<NodeView>, bound: nat, ch: Seq<usize>)
    requires
        children_before(t),
        is_prefix(t, t2),
        bound <= t.len(),
    ensures
        list_cost(cm, t2, bound, ch) == list_cost(cm, t, bound, ch),
    decreases bound, 0nat, ch.len(),
{
    if ch.len() > 0 {
        lemma_list_cost_prefix(cm, t, t2, bound, ch.drop_last());
        if ch.last() < bound {
            lemma_cost_prefix(cm, t, t2, ch.last() as nat);
        }
    }
}

proof fn lemma_term_in_prefix(g: GraphView, t: Seq<NodeView>, t2: Seq<NodeView>, i: nat, c: usize)
    requires
        is_prefix(t, t2),
        term_in(g, t, i, c),
    ensures
        term_in(g, t2, i, c),
    decreases i,
{
    let j = choose|j: int|
        0 <= j < g.len() && #[trigger] g.uf[j] == g.uf[c as int] && g.nodes[j].0 == t[i as int].0
            && g.nodes[j].1.len() == t[i as int].1.len() && forall|k: int|
            0 <= k < t[i as int].1.len() ==> (#[trigger] t[i as int].1[k]) < i && term_in(
                g,
                t,
                t[i as int].1[k] as nat,
                g.nodes[j].1[k],
            );
    assert(t2[i as int] == t[i as int]);
    assert forall|k: int| 0 <= k < t2[i as int].1.len() implies (#[trigger] t2[i as int].1[k]) < i && term_in(
        g,
        t2,
        t2[i as int].1[k] as nat,
        g.nodes[j].1[k],
    ) by {
        assert(t[i as int].1[k] < i);
        lemma_term_in_prefix(g, t, t2, t[i as int].1[k] as nat, g.nodes[j].1[k]);
    }
    assert(g.uf[j] == g.uf[c as int]);
}

proof fn lemma_sum_some_each(best: Seq<Option<u64>>, uf: Seq<usize>, ids: Seq<usize>, k: int)
    requires
        sum_best(best, uf, ids) is Some,
        0 <= k < ids.len(),
    ensures
        best[uf[ids[k] as int] as int] is Some,
        best[uf[ids[k] as int] as int]->0 <= sum_best(best, uf, ids)->0,
    decreases ids.len(),
{
    if k < ids.len() - 1 {
        lemma_sum_some_each(best, uf, ids.drop_last(), k);
    }
}

proof fn lemma_sum_eq_list(
    g: GraphView,
    best: Seq<Option<u64>>,
    cm: &CostModel,
    t: Seq<NodeView>,
    bound: nat,
    ids: Seq<usize>,
    ch: Seq<usize>,
)
    requires
        ids.len() == ch.len(),
        forall|k: int| 0 <= k < ch.len() ==> (#[trigger] ch[k]) < bound,
        forall|k: int| 0 <= k < ids.len() ==> (#[trigger] best[g.uf[ids[k] as int] as int]) == Some(
            term_cost(cm, t, ch[k] as nat) as u64,
        ) && term_cost(cm, t, ch[k] as nat) <= u64::MAX,
    ensures
        sum_best(best, g.uf, ids) == Some(list_cost(cm, t, bound, ch)),
    decreases ids.len(),
{
    if ids.len() > 0 {
        let n = ids.len() - 1;
        assert(best[g.uf[ids[n] as int] as int] == Some(term_cost(cm, t, ch[n] as nat) as u64));
        assert(ch[n] < bound);
        lemma_sum_eq_list(g, best, cm, t, bound, ids.drop_last(), ch.drop_last());
    }
}

/// `(cost, t)` is a cheapest term of class `root`: well formed, represented
/// in the class, costing `cost`, and no term represented in the class (with a
/// cost that fits in a `u64`) costs less.
pub open spec fn extracted(g: GraphView, cm: &CostModel, root: usize, cost: u64, t: Seq<NodeView>) -> bool {
    &&& term_wf(t)
    &&& term_in(g, t, (t.len() - 1) as nat, root)
    &&& cost == term_cost(cm, t, (t.len() - 1) as nat)
    &&& forall|t2: Seq<NodeView>, i2: nat|
        term_in(g, t2, i2, root) && term_cost(cm, t2, i2) <= u64::MAX ==> cost <= term_cost(cm, t2, i2)
}

/// Why extraction gave no term.
#[derive(Clone, Copy, Debug, PartialEq, Eq, Structural)]
pub enum ExtractError {
    /// No term of the class has a cost that fits in a `u64`: every member
    /// depends on a cycle with no way out, or costs too much.
    NoFiniteCost,
    /// Reading back the cheapest term went deeper than there are classes,
    /// which only zero-cost cycles can cause.
    TooDeep,
}

/// Every entry of `b1` is matched by an equal or lower entry of `b2`.
pub open spec fn le_table(b2: Seq<Option<u64>>, b1: Seq<Option<u64>>) -> bool {
    &&& b2.len() == b1.len()
    &&& forall|i: int| 0 <= i < b1.len() && (#[trigger] b1[i]) is Some ==> b2[i] is Some && b2[i]->0 <= b1[i]->0
}

/// Every table entry is at least the cost from the table of some node of
/// its class.
pub open spec fn table_reached(g: GraphView, best: Seq<Option<u64>>, cm: &CostModel) -> bool {
    forall|c: int| 0 <= c < g.len() && (#[trigger] best[c]) is Some ==> exists|j: int|
        0 <= j < g.len() && #[trigger] g.uf[j] == c && cand(g, best, cm, g.nodes[j]) is Some
            && cand(g, best, cm, g.nodes[j])->0 <= best[c]->0
}

proof fn lemma_sum_mono(b2: Seq<Option<u64>>, b1: Seq<Option<u64>>, uf: Seq<usize>, ids: Seq<usize>)
    requires
        le_table(b2, b1),
        forall|k: int| 0 <= k < ids.len() ==> uf[#[trigger] ids[k] as int] < b1.len(),
        sum_best(b1, uf, ids) is Some,
    ensures
        sum_best(b2, uf, ids) is Some,
        sum_best(b2, uf, ids)->0 <= sum_best(b1, uf, ids)->0,
    decreases ids.len(),
{
    if ids.len() > 0 {
        assert(uf[ids[ids.len() - 1] as int] < b1.len());
        lemma_sum_mono(b2, b1, uf, ids.drop_last());
    }
}

proof fn lemma_cand_mono(g: GraphView, b2: Seq<Option<u64>>, b1: Seq<Option<u64>>, cm: &CostModel, j: int)
    requires
        g.wf(),
        0 <= j < g.len(),
        b1.len() == g.len(),
        le_table(b2, b1),
        cand(g, b1, cm, g.nodes[j]) is Some,
    ensures
        cand(g, b2, cm, g.nodes[j]) is Some,
        cand(g, b2, cm, g.nodes[j])->0 <= cand(g, b1, cm, g.nodes[j])->0,
{
    let ids = g.nodes[j].1;
    assert(ids_below(ids, g.len()));
    assert forall|k: int| 0 <= k < ids.len() implies g.uf[#[trigger] ids[k] as int] < b1.len() by {
        assert(ids[k] < g.len());
    }
    lemma_sum_mono(b2, b1, g.uf, ids);
}

proof fn lemma_potential_update(best: Seq<Option<u64>>, i: int, v: Option<u64>)
    requires
        0 <= i < best.len(),
        lower(v, best[i]),
    ensures
        potential(best.update(i, v)) < potential(best),
    decreases best.len(),
{
    let b2 = best.update(i, v);
    if i == best.len() - 1 {
        assert(b2.drop_last() =~= best.drop_last());
    } else {
        assert(b2.drop_last() =~= best.drop_last().update(i, v));
        lemma_potential_update(best.drop_last(), i, v);
    }
}

impl EGraph {
    /// Reads back into `out` a term of class `c` whose cost equals the table
    /// entry of `c`; returns its position.
    fn build(&self, best: &Vec<Option<u64>>, cm: &CostModel, c: usize, fuel: u64, out: &mut Vec<ENode>) -> (r: Option<usize>)
        requires
            self@.wf(),
            table_fixpoint(self@, best@, cm),
            table_attained(self@, best@, cm),
            c < self@.len(),
            best@[self@.uf[c as int] as int] is Some,
            children_before(nodes_view(old(out)@)),
        ensures
            children_before(nodes_view(final(out)@)),
            is_prefix(nodes_view(old(out)@), nodes_view(final(out)@)),
            match r {
                Some(i) => i < final(out)@.len() && term_in(self@, nodes_view(final(out)@), i as nat, c)
                    && term_cost(cm, nodes_view(final(out)@), i as nat) == best@[self@.uf[c as int] as int]->0,
                None => true,
            },
            r is Some ==> r->0 == final(out)@.len() - 1,
            positive_weights(cm) && fuel >= best@[self@.uf[c as int] as int]->0 ==> r is Some,
        decreases fuel,
    {
        let rc = self.uf[c];
        proof {
            assert(self@.uf[c as int] < self@.len());
            let w = choose|w: int|
                0 <= w < self@.len() && #[trigger] self@.uf[w] == rc as int && cand(self@, best@, cm, self@.nodes[w]) == Some(best@[rc as int]->0 as nat);
            if positive_weights(cm) {
                assert(cm.cost_of(self@.nodes[w].0) >= 1) by {
                    match self@.nodes[w].0 {
                        Kind::Op(t) => {
                            if t < cm.op_costs@.len() {
                                assert(cm.op_costs@[t as int] > 0);
                            }
                        },
                        _ => {},
                    }
                }
                assert(best@[rc as int]->0 >= 1);
            }
        }
        if fuel == 0 {
            return None;
        }
        let target = match best[rc] {
            Some(v) => v,
            None => {
                return None;
            },
        };
        let n = self.uf.len();
        let mut j: usize = 0;
        let mut found = false;
        while j < n
            invariant
                self@.wf(),
                n == self@.len(),
                best@.len() == n,
                j <= n,
                found ==> j < n && self@.uf[j as int] == rc && cand(self@, best@, cm, self@.nodes[j as int]) == Some(target as nat),
                !found ==> forall|j2: int| 0 <= j2 < j ==> !(self@.uf[j2] == rc && #[trigger] cand(self@, best@, cm, self@.nodes[j2]) == Some(target as nat)),
            ensures
                found ==> j < n && self@.uf[j as int] == rc && cand(self@, best@, cm, self@.nodes[j as int]) == Some(target as nat),
                !found ==> forall|j2: int| 0 <= j2 < n ==> !(self@.uf[j2] == rc && #[trigger] cand(self@, best@, cm, self@.nodes[j2]) == Some(target as nat)),
            decreases n - j,
        {
            if self.uf[j] == rc {
                let v = self.node_cost(best, cm, j);
                if v == Some(target) {
                    found = true;
                    break;
                }
            }
            j = j + 1;
        }
        if !found {
            proof {
                let w = choose|w: int|
                    0 <= w < self@.len() && #[trigger] self@.uf[w] == rc as int && cand(self@, best@, cm, self@.nodes[w]) == Some(best@[rc as int]->0 as nat);
                assert(!(self@.uf[w] == rc && cand(self@, best@, cm, self@.nodes[w]) == Some(target as nat)));
            }
            return None;
        }
        let ghost out0 = nodes_view(out@);
        let node = &self.nodes[j];
        assert(node@ == self@.nodes[j as int]);
        let ghost ids = node@.1;
        assert(ids_below(ids, n as nat));
        let mut ch: Vec<usize> = Vec::new();
        let mut k: usize = 0;
        while k < node.children.len()
            invariant
                self@.wf(),
                table_fixpoint(self@, best@, cm),
                table_attained(self@, best@, cm),
                n == self@.len(),
                j < n,
                node@ == self@.nodes[j as int],
                ids == node@.1,
                ids_below(ids, n as nat),
                sum_best(best@, self@.uf, ids) is Some,
                k <= ids.len(),
                ch@.len() == k,
                fuel > 0,
                out0 == nodes_view(old(out)@),
                children_before(nodes_view(out@)),
                is_prefix(out0, nodes_view(out@)),
                cand(self@, best@, cm, self@.nodes[j as int]) == Some(target as nat),
                best@[self@.uf[c as int] as int] == Some(target),
                forall|q: int| 0 <= q < k ==> (#[trigger] ch@[q]) < out@.len() && term_in(self@, nodes_view(out@), ch@[q] as nat, ids[q])
                    && term_cost(cm, nodes_view(out@), ch@[q] as nat) == best@[self@.uf[ids[q] as int] as int]->0
                    && best@[self@.uf[ids[q] as int] as int] is Some,
            decreases ids.len() - k,
        {
            let ghost o1 = nodes_view(out@);
            proof {
                lemma_sum_some_each(best@, self@.uf, ids, k as int);
                assert(ids[k as int] < n);
            }
            proof {
                if positive_weights(cm) {
                    assert(cm.cost_of(node@.0) >= 1) by {
                        match node@.0 {
                            Kind::Op(t) => {
                                if t < cm.op_costs@.len() {
                                    assert(cm.op_costs@[t as int] > 0);
                                }
                            },
                            _ => {},
                        }
                    }
                    assert(cand(self@, best@, cm, self@.nodes[j as int]) == Some(target as nat));
                    assert(best@[self@.uf[ids[k as int] as int] as int]->0 < target);
                }
            }
            let x = match self.build(best, cm, node.children[k], fuel - 1, out) {
                Some(x) => x,
                None => {
                    proof {
                        let o2 = nodes_view(out@);
                        assert forall|p: int| 0 <= p < out0.len() implies #[trigger] o2[p] == out0[p] by {
                            assert(o1[p] == out0[p]);
                        }
                    }
                    return None;
                },
            };
            proof {
                let o2 = nodes_view(out@);
                assert forall|q: int| 0 <= q < k implies (#[trigger] ch@[q]) < out@.len() && term_in(self@, o2, ch@[q] as nat, ids[q])
                    && term_cost(cm, o2, ch@[q] as nat) == best@[self@.uf[ids[q] as int] as int]->0
                    && best@[self@.uf[ids[q] as int] as int] is Some by {
                    lemma_term_in_prefix(self@, o1, o2, ch@[q] as nat, ids[q]);
                    lemma_cost_prefix(cm, o1, o2, ch@[q] as nat);
                }
                assert forall|p: int| 0 <= p < out0.len() implies #[trigger] o2[p] == out0[p] by {
                    assert(o1[p] == out0[p]);
                }
            }
            let ghost ch_old = ch@;
            ch.push(x);
            proof {
                let o2 = nodes_view(out@);
                assert(ch@[k as int] == x);
                assert(node.children@[k as int] == ids[k as int]);
                assert forall|q: int| 0 <= q < k + 1 implies (#[trigger] ch@[q]) < out@.len() && term_in(self@, o2, ch@[q] as nat, ids[q])
                    && term_cost(cm, o2, ch@[q] as nat) == best@[self@.uf[ids[q] as int] as int]->0
                    && best@[self@.uf[ids[q] as int] as int] is Some by {
                    if q < k {
                        assert(ch@[q] == ch_old[q]);
                    }
                }
            }
            k = k + 1;
        }
        let ghost o1 = nodes_view(out@);
        let idx = out.len();
        let ghost chv = ch@;
        out.push(ENode::new(node.kind, ch));
        proof {
            let o2 = nodes_view(out@);
            assert(o2 =~= o1.push((node@.0, chv)));
            assert(is_prefix(o1, o2));
            assert forall|q: int| 0 <= q < k implies (#[trigger] chv[q]) < idx && term_in(self@, o2, chv[q] as nat, ids[q])
                && term_cost(cm, o2, chv[q] as nat) == best@[self@.uf[ids[q] as int] as int]->0 by {
                lemma_term_in_prefix(self@, o1, o2, chv[q] as nat, ids[q]);
                lemma_cost_prefix(cm, o1, o2, chv[q] as nat);
            }
            assert(o2[idx as int] == (node@.0, chv));
            assert(self@.uf[j as int] == self@.uf[c as int]);
            assert(term_in(self@, o2, idx as nat, c));
            assert forall|q: int| 0 <= q < ids.len() implies (#[trigger] best@[self@.uf[ids[q] as int] as int]) == Some(
                term_cost(cm, o2, chv[q] as nat) as u64) && term_cost(cm, o2, chv[q] as nat) <= u64::MAX by {
                assert(chv[q] < idx);
            }
            assert forall|q: int| 0 <= q < chv.len() implies (#[trigger] chv[q]) < idx by {}
            lemma_sum_eq_list(self@, best@, cm, o2, idx as nat, ids, chv);
            assert(children_before(o2)) by {
                assert forall|i: int, q: int| 0 <= i < o2.len() && 0 <= q < o2[i].1.len() implies (#[trigger] o2[i].1[q]) < i by {
                    if i < idx {
                        assert(o2[i] == o1[i]);
                    }
                }
            }
            assert(is_prefix(out0, o2)) by {
                assert forall|p: int| 0 <= p < out0.len() implies #[trigger] o2[p] == out0[p] by {
                    assert(o1[p] == out0[p]);
                }
            }
        }
        Some(idx)
    }

    /// The cheapest term of class `root` under `cm`, with its cost. The term
    /// is represented in the class, its cost is what `term_cost` gives, and no
    /// term represented in the class costs less.
    pub fn extract(&self, cm: &CostModel, root: usize) -> (r: Result<(u64, Term), ExtractError>)
        requires
            self@.wf(),
            root < self@.len(),
        ensures
            match r {
                Ok((cost, t)) => extracted(self@, cm, root, cost, t@),
                Err(ExtractError::NoFiniteCost) => forall|t2: Seq<NodeView>, i2: nat|
                    term_in(self@, t2, i2, root) ==> term_cost(cm, t2, i2) > u64::MAX,
                Err(ExtractError::TooDeep) => !positive_weights(cm),
            },
    {
        let best = self.cost_table(cm);
        let rc = self.uf[root];
        let cost = match best[rc] {
            Some(v) => v,
            None => {
                proof {
                    assert forall|t2: Seq<NodeView>, i2: nat| term_in(self@, t2, i2, root) implies term_cost(cm, t2, i2) > u64::MAX by {
                        if term_cost(cm, t2, i2) <= u64::MAX {
                            lemma_table_below_term(self@, best@, cm, t2, i2, root);
                        }
                    }
                }
                return Err(ExtractError::NoFiniteCost);
            },
        };
        let mut out: Vec<ENode> = Vec::new();
        assert(nodes_view(out@) =~= Seq::<NodeView>::empty());
        let n = self.uf.len() as u64;
        let fuel: u64 = if cost >= n { cost } else { n };
        match self.build(&best, cm, root, fuel, &mut out) {
            None => Err(ExtractError::TooDeep),
            Some(i) => {
                let ghost ov = nodes_view(out@);
                if i != out.len() - 1 {
                    // the root is pushed last
                    return Err(ExtractError::TooDeep);
                }
                let t = Term { nodes: out };
                proof {
                    assert(t@ == ov);
                    assert forall|t2: Seq<NodeView>, i2: nat|
                        term_in(self@, t2, i2, root) && term_cost(cm, t2, i2) <= u64::MAX implies cost <= term_cost(cm, t2, i2) by {
                        lemma_table_below_term(self@, best@, cm, t2, i2, root);
                    }
                }
                Ok((cost, t))
            },
        }
    }

    /// The best-cost table at its fixpoint: no node is cheaper than its
    /// class's entry, and every entry is met by some node of its class.
    pub fn cost_table(&self, cm: &CostModel) -> (best: Vec<Option<u64>>)
        requires
            self@.wf(),
        ensures
            table_fixpoint(self@, best@, cm),
            table_attained(self@, best@, cm),
    {
        let n = self.uf.len();
        let mut best: Vec<Option<u64>> = Vec::new();
        let mut i: usize = 0;
        while i < n
            invariant
                i <= n,
                best@.len() == i,
                forall|t: int| 0 <= t < i ==> (#[trigger] best@[t]) is None,
            decreases n - i,
        {
            best.push(None);
            i = i + 1;
        }
        loop
            invariant
                self@.wf(),
                n == self@.len(),
                best@.len() == n,
                table_reached(self@, best@, cm),
            decreases potential(best@),
        {
            let ghost start = best@;
            let mut changed = false;
            let mut j: usize = 0;
            while j < n
                invariant
                    self@.wf(),
                    n == self@.len(),
                    best@.len() == n,
                    j <= n,
                    start.len() == n,
                    table_reached(self@, best@, cm),
                    le_table(best@, start),
                    changed ==> potential(best@) < potential(start),
                    !changed ==> best@ == start,
                    !changed ==> forall|p: int| 0 <= p < j && (#[trigger] cand(self@, best@, cm, self@.nodes[p])) is Some ==> match best@[self@.uf[p] as int] {
                        Some(b) => b <= cand(self@, best@, cm, self@.nodes[p])->0,
                        None => false,
                    },
                decreases n - j,
            {
                let v = self.node_cost(&best, cm, j);
                let c = self.uf[j];
                let better = match (v, best[c]) {
                    (Some(x), Some(y)) => x < y,
                    (Some(_), None) => true,
                    _ => false,
                };
                if better {
                    let ghost b1 = best@;
                    best.set(c, v);
                    proof {
                        let b2 = best@;
                        assert(b2 == b1.update(c as int, v));
                        lemma_potential_update(b1, c as int, v);
                        assert(le_table(b2, b1));
                        assert forall|i: int| 0 <= i < start.len() && (#[trigger] start[i]) is Some implies b2[i] is Some && b2[i]->0 <= start[i]->0 by {
                            assert(b1[i] is Some);
                        }
                        assert forall|c2: int| 0 <= c2 < n && (#[trigger] b2[c2]) is Some implies exists|j2: int|
                            0 <= j2 < n && #[trigger] self@.uf[j2] == c2 && cand(self@, b2, cm, self@.nodes[j2]) is Some
                                && cand(self@, b2, cm, self@.nodes[j2])->0 <= b2[c2]->0 by {
                            if c2 == c {
                                lemma_cand_mono(self@, b2, b1, cm, j as int);
                                assert(self@.uf[j as int] == c2);
                            } else {
                                assert(b1[c2] is Some);
                                let j2 = choose|j2: int|
                                    0 <= j2 < n && #[trigger] self@.uf[j2] == c2 && cand(self@, b1, cm, self@.nodes[j2]) is Some
                                        && cand(self@, b1, cm, self@.nodes[j2])->0 <= b1[c2]->0;
                                lemma_cand_mono(self@, b2, b1, cm, j2);
                                assert(self@.uf[j2] == c2);
                            }
                        }
                    }
                    changed = true;
                }
                j = j + 1;
            }
            if !changed {
                proof {
                    assert forall|c2: int| 0 <= c2 < n && (#[trigger] best@[c2]) is Some implies exists|j2: int|
                        0 <= j2 < n && #[trigger] self@.uf[j2] == c2 && cand(self@, best@, cm, self@.nodes[j2]) == Some(best@[c2]->0 as nat) by {
                        let j2 = choose|j2: int|
                            0 <= j2 < n && #[trigger] self@.uf[j2] == c2 && cand(self@, best@, cm, self@.nodes[j2]) is Some
                                && cand(self@, best@, cm, self@.nodes[j2])->0 <= best@[c2]->0;
                        assert(self@.uf[j2] == c2);
                    }
                }
                return best;
            }
        }
    }

    /// `cand` computed for stored node `j`.
    fn node_cost(&self, best: &Vec<Option<u64>>, cm: &CostModel, j: usize) -> (r: Option<u64>)
        requires
            self@.wf(),
            best@.len() == self@.len(),
            j < self@.len(),
        ensures
            match cand(self@, best@, cm, self@.nodes[j as int]) {
                Some(v) => r == Some(v as u64),
                None => r is None,
            },
    {
        let n = &self.nodes[j];
        assert(n@ == self@.nodes[j as int]);
        assert(ids_below(n@.1, self@.len()));
        let mut total: u64 = 0;
        let mut k: usize = 0;
        while k < n.children.len()
            invariant
                self@.wf(),
                best@.len() == self@.len(),
                j < self@.len(),
                n@ == self@.nodes[j as int],
                ids_below(n@.1, self@.len()),
                k <= n@.1.len(),
                sum_best(best@, self@.uf, n@.1.subrange(0, k as int)) == Some(total as nat),
            decreases n@.1.len() - k,
        {
            let ghost pre = n@.1.subrange(0, k as int);
            let ghost nxt = n@.1.subrange(0, k + 1);
            assert(nxt.drop_last() =~= pre);
            assert(nxt.last() == n@.1[k as int]);
            assert(n@.1[k as int] < self@.len());
            let c = self.uf[n.children[k]];
            match best[c] {
                Some(b) => {
                    if b > u64::MAX - total {
                        proof {
                            assert(sum_best(best@, self@.uf, nxt) == Some(b as nat + total as nat));
                            lemma_sum_prefix_grows(best@, self@.uf, n@.1, (k + 1) as nat);
                            assert(self@.nodes[j as int].1 == n@.1);
                            assert(sum_best(best@, self@.uf, n@.1) is Some ==> sum_best(best@, self@.uf, n@.1)->0 > u64::MAX);
                            assert(cand(self@, best@, cm, self@.nodes[j as int]) is None);
                        }
                        return None;
                    }
                    total = total + b;
                    assert(sum_best(best@, self@.uf, nxt) == Some(total as nat));
                },
                None => {
                    proof {
                        assert(sum_best(best@, self@.uf, nxt) is None);
                        lemma_sum_prefix_none(best@, self@.uf, n@.1, (k + 1) as nat);
                        assert(self@.nodes[j as int].1 == n@.1);
                        assert(cand(self@, best@, cm, self@.nodes[j as int]) is None);
                    }
                    return None;
                },
            }
            k = k + 1;
        }
        assert(n@.1.subrange(0, k as int) =~= n@.1);
        let w = cm.weight(n.kind);
        if w > u64::MAX - total {
            None
        } else {
            Some(w + total)
        }
    }
}

proof fn lemma_sum_prefix_none(best: Seq<Option<u64>>, uf: Seq<usize>, ids: Seq<usize>, k: nat)
    requires
        k <= ids.len(),
        sum_best(best, uf, ids.subrange(0, k as int)) is None,
    ensures
        sum_best(best, uf, ids) is None,
    decreases ids.len() - k,
{
    if k < ids.len() {
        let a = ids.subrange(0, k as int + 1);
        assert(a.drop_last() =~= ids.subrange(0, k as int));
        lemma_sum_prefix_none(best, uf, ids, k + 1);
    } else {
        assert(ids.subrange(0, k as int) =~= ids);
    }
}

proof fn lemma_sum_prefix_grows(best: Seq<Option<u64>>, uf: Seq<usize>, ids: Seq<usize>, k: nat)
    requires
        k <= ids.len(),
        sum_best(best, uf, ids.subrange(0, k as int)) is Some ==> sum_best(best, uf, ids.subrange(0, k as int))->0 > u64::MAX,
    ensures
        sum_best(best, uf, ids) is Some ==> sum_best(best, uf, ids)->0 > u64::MAX,
    decreases ids.len() - k,
{
    if k < ids.len() {
        let a = ids.subrange(0, k as int + 1);
        assert(a.drop_last() =~= ids.subrange(0, k as int));
        lemma_sum_prefix_grows(best, uf, ids, k + 1);
    } else {
        assert(ids.subrange(0, k as int) =~= ids);
    }
}

} // verus!
