//! Rewrite rules and their application: building a right-hand side under a
//! substitution and merging it into the matched class.
use vstd::prelude::*;
use crate::egraph::{EGraph, GraphView, canon, canon_ids, ids_below, rebuilt};
use crate::pattern::{bound_under, child_bound, tree_size, list_size, lemma_list_size_suffix, PatKind, Pattern, PatView, SubstView, pattern_wf, pmatch, plist, graph_extends, lemma_pmatch_extends, lemma_plist_extends, lemma_add_extends, lemma_union_extends, lemma_extends_trans, lemma_plist_split, lemma_plist_single};
use crate::matcher::{Subst, subst_below};
use crate::term::ENode;

verus! {

/// A rewrite rule: a name, a left pattern, a right pattern, and how many
/// variable numbers the two share.
pub struct Rewrite {
    pub name: String,
    pub lhs: Pattern,
    pub rhs: Pattern,
    pub n_vars: usize,
}

impl Rewrite {
    pub open spec fn wf(&self) -> bool {
        pattern_wf(self.lhs@) && pattern_wf(self.rhs@)
    }

    pub open spec fn lhs_root(&self) -> nat {
        (self.lhs@.len() - 1) as nat
    }

    pub open spec fn rhs_root(&self) -> nat {
        (self.rhs@.len() - 1) as nat
    }
}

/// `g1` is `g0` with nodes added and nothing merged: old ids keep their
/// representatives and every new id is its own.
pub open spec fn only_adds(g0: GraphView, g1: GraphView) -> bool {
    &&& g0.len() <= g1.len()
    &&& forall|i: int| 0 <= i < g0.len() ==> #[trigger] g1.uf[i] == g0.uf[i]
    &&& forall|i: int| g0.len() <= i < g1.len() ==> #[trigger] g1.uf[i] == i
}

proof fn lemma_only_adds_trans(g0: GraphView, g1: GraphView, g2: GraphView)
    requires
        only_adds(g0, g1),
        only_adds(g1, g2),
    ensures
        only_adds(g0, g2),
{
    assert forall|i: int| g0.len() <= i < g2.len() implies #[trigger] g2.uf[i] == i by {
        if i < g1.len() {
            assert(g1.uf[i] == i);
        }
    }
}

/// A rebuild grows the graph.
pub proof fn lemma_rebuilt_extends(g0: GraphView, g1: GraphView)
    requires
        g0.wf(),
        rebuilt(g0, g1),
    ensures
        graph_extends(g0, g1),
{
    assert forall|i: int| 0 <= i < g0.len() implies canon(g1.uf, #[trigger] g1.nodes[i]) == canon(g1.uf, g0.nodes[i]) by {
        let x = g0.nodes[i].1;
        assert(ids_below(x, g0.len()));
        assert forall|k: int| 0 <= k < x.len() implies canon_ids(g1.uf, canon_ids(g1.uf, x))[k] == canon_ids(g1.uf, x)[k] by {
            assert(x[k] < g1.len());
        }
        assert(canon_ids(g1.uf, canon_ids(g1.uf, x)) =~= canon_ids(g1.uf, x));
    }
}

/// Bounds on the ids of a substitution survive growth of the graph.
pub proof fn lemma_subst_below_grow(s: SubstView, a: nat, b: nat)
    requires
        subst_below(s, a),
        a <= b,
    ensures
        subst_below(s, b),
{
    assert forall|v: int| 0 <= v < s.len() && (#[trigger] s[v]) is Some implies ids_below(s[v]->0, b) by {
        assert(ids_below(s[v]->0, a));
        assert forall|k: int| 0 <= k < s[v]->0.len() implies (#[trigger] s[v]->0[k]) < b by {
            assert(s[v]->0[k] < a);
        }
    }
}

/// A match of a node pattern is witnessed by a stored node of its class.
proof fn lemma_present_witness(g: GraphView, pat: Seq<PatView>, p: nat, k: crate::term::Kind, c0: usize, s: SubstView)
    requires
        p < pat.len(),
        pat[p as int].0 == PatKind::Node(k),
        g.canonical(),
        g.congruent(),
        pmatch(g, pat, p, c0, s),
    ensures
        exists|j: int|
            0 <= j < g.len() && g.canonical() && g.congruent() && g.nodes[j].0 == k && #[trigger] plist(
                g,
                pat,
                p,
                pat[p as int].1,
                g.nodes[j].1,
                s,
            ),
{
    let w = choose|w: int|
        0 <= w < g.len() && #[trigger] g.uf[w] == g.uf[c0 as int] && g.nodes[w].0 == k && plist(g, pat, p, pat[p as int].1, g.nodes[w].1, s);
    assert(plist(g, pat, p, pat[p as int].1, g.nodes[w].1, s));
}

impl EGraph {
    /// Builds pattern node `p` under `s` into the graph and returns the class
    /// that holds it. Fails (`None`) when the pattern uses a variable that `s`
    /// leaves unbound, places a wildcard outside a child list, or the graph has
    /// no room for another node.
    pub fn instantiate(&mut self, pat: &Pattern, p: usize, s: &Subst) -> (r: Option<usize>)
        requires
            old(self)@.wf(),
            pattern_wf(pat@),
            p < pat@.len(),
            subst_below(s@, old(self)@.len()),
        ensures
            final(self)@.wf(),
            graph_extends(old(self)@, final(self)@),
            match r {
                Some(c) => c < final(self)@.len() && pmatch(final(self)@, pat@, p as nat, c, s@),
                None => true,
            },
            final(self)@.len() == old(self)@.len() ==> final(self)@ == old(self)@,
            final(self)@.len() <= old(self)@.len() + tree_size(pat@, p as nat),
            only_adds(old(self)@, final(self)@),
            bound_under(pat@, p as nat, s@) && old(self)@.len() + tree_size(pat@, p as nat) <= usize::MAX ==> r is Some,
            forall|c0: usize|
                c0 < old(self)@.len() && old(self)@.canonical() && old(self)@.congruent() && #[trigger] pmatch(old(self)@, pat@, p as nat, c0, s@)
                    ==> final(self)@ == old(self)@ && (r is Some ==> old(self)@.uf[r->0 as int] == old(self)@.uf[c0 as int]),
        decreases p,
    {
        let ghost g0 = self@;
        proof {
            crate::matcher::lemma_graph_extends_refl(g0);
        }
        assert(pat.nodes@[p as int]@ == pat@[p as int]);
        match pat.nodes[p].kind {
            PatKind::Var(v) => {
                if v >= s.binds.len() {
                    return None;
                }
                match s.get(v) {
                    Some(run) => {
                        if run.len() == 1 {
                            assert(ids_below(s@[v as int]->0, g0.len()));
                            assert(run@[0] < g0.len());
                            assert forall|c0: usize|
                                c0 < g0.len() && g0.canonical() && g0.congruent() && #[trigger] pmatch(g0, pat@, p as nat, c0, s@)
                                implies g0.uf[run@[0] as int] == g0.uf[c0 as int] by {}
                            Some(run[0])
                        } else {
                            None
                        }
                    },
                    None => None,
                }
            },
            PatKind::Rest(_) => None,
            PatKind::Node(k) => {
                let ghost ps = pat@[p as int].1;
                let np = pat.nodes[p].children.len();
                let mut i: usize = np;
                let mut ch: Vec<usize> = Vec::new();
                proof {
                    assert forall|j: int|
                        0 <= j < g0.len() && g0.canonical() && g0.congruent() && g0.nodes[j].0 == k && #[trigger] plist(
                            g0,
                            pat@,
                            p as nat,
                            ps,
                            g0.nodes[j].1,
                            s@,
                        ) implies self@ == g0 && exists|a: int|
                            0 <= a <= g0.nodes[j].1.len() && #[trigger] plist(
                                g0,
                                pat@,
                                p as nat,
                                ps.subrange(0, i as int),
                                g0.nodes[j].1.subrange(0, a),
                                s@,
                            ) && canon_ids(g0.uf, ch@) == canon_ids(g0.uf, g0.nodes[j].1.subrange(a, g0.nodes[j].1.len() as int)) by {
                        let ids = g0.nodes[j].1;
                        assert(ps.subrange(0, np as int) =~= ps);
                        assert(ids.subrange(0, ids.len() as int) =~= ids);
                        assert(canon_ids(g0.uf, ch@) =~= canon_ids(g0.uf, ids.subrange(ids.len() as int, ids.len() as int)));
                    }
                }
                while i > 0
                    invariant
                        g0 == old(self)@,
                        g0.wf(),
                        self@.wf(),
                        graph_extends(g0, self@),
                        pattern_wf(pat@),
                        p < pat@.len(),
                        ps == pat@[p as int].1,
                        np == ps.len(),
                        pat@[p as int].0 == PatKind::Node(k),
                        i <= np,
                        subst_below(s@, self@.len()),
                        subst_below(s@, g0.len()),
                        ids_below(ch@, self@.len()),
                        plist(self@, pat@, p as nat, ps.subrange(i as int, np as int), ch@, s@),
                        self@.len() == g0.len() ==> self@ == g0,
                        only_adds(g0, self@),
                        self@.len() <= g0.len() + list_size(pat@, p as nat, ps.subrange(i as int, np as int)),
                        (exists|j: int|
                            0 <= j < g0.len() && g0.canonical() && g0.congruent() && g0.nodes[j].0 == k && #[trigger] plist(
                                g0,
                                pat@,
                                p as nat,
                                ps,
                                g0.nodes[j].1,
                                s@,
                            )) ==> self@ == g0,
                        forall|j: int|
                            0 <= j < g0.len() && g0.canonical() && g0.congruent() && g0.nodes[j].0 == k && #[trigger] plist(
                                g0,
                                pat@,
                                p as nat,
                                ps,
                                g0.nodes[j].1,
                                s@,
                            ) ==> self@ == g0 && exists|a: int|
                                0 <= a <= g0.nodes[j].1.len() && #[trigger] plist(
                                    g0,
                                    pat@,
                                    p as nat,
                                    ps.subrange(0, i as int),
                                    g0.nodes[j].1.subrange(0, a),
                                    s@,
                                ) && canon_ids(g0.uf, ch@) == canon_ids(g0.uf, g0.nodes[j].1.subrange(a, g0.nodes[j].1.len() as int)),
                    decreases i,
                {
                    i = i - 1;
                    let q = pat.nodes[p].children[i];
                    assert(q == ps[i as int]);
                    assert(q < p);
                    assert(pat.nodes@[q as int]@ == pat@[q as int]);
                    assert(ps.subrange(i as int, np as int).drop_first() =~= ps.subrange(i + 1, np as int));
                    proof {
                        assert(ps.subrange(i as int, np as int)[0] == q);
                        assert(list_size(pat@, p as nat, ps.subrange(i as int, np as int))
                            == tree_size(pat@, q as nat) + list_size(pat@, p as nat, ps.subrange(i + 1, np as int)));
                        lemma_list_size_suffix(pat@, p as nat, ps, i as int);
                        assert(ps.subrange(0, np as int) =~= ps);
                        assert(tree_size(pat@, p as nat) == 1 + list_size(pat@, p as nat, ps));
                        if bound_under(pat@, p as nat, s@) {
                            assert(child_bound(pat@, p as nat, pat@[p as int].1[i as int], s@));
                        }
                    }
                    match pat.nodes[q].kind {
                        PatKind::Rest(v) => {
                            if v >= s.binds.len() {
                                proof {
                                    assert forall|c0: usize|
                                        c0 < g0.len() && g0.canonical() && g0.congruent() && #[trigger] pmatch(g0, pat@, p as nat, c0, s@)
                                        implies self@ == g0 by {
                                        lemma_present_witness(g0, pat@, p as nat, k, c0, s@);
                                    }
                                }
                                return None;
                            }
                            match s.get(v) {
                                Some(run) => {
                                    let ghost old_ch = ch@;
                                    let mut nch = crate::term::copy_ids(run);
                                    let mut t: usize = 0;
                                    while t < ch.len()
                                        invariant
                                            t <= ch@.len(),
                                            nch@ =~= run@ + ch@.subrange(0, t as int),
                                        decreases ch@.len() - t,
                                    {
                                        nch.push(ch[t]);
                                        t = t + 1;
                                    }
                                    ch = nch;
                                    proof {
                                        assert(ch@ =~= run@ + old_ch);
                                        let m = run@.len() as int;
                                        assert(ch@.subrange(0, m) =~= run@);
                                        assert(ch@.subrange(m, ch@.len() as int) =~= old_ch);
                                        assert(ids_below(run@, self@.len()));
                                        assert(canon_ids(self@.uf, ch@.subrange(0, m)) == canon_ids(self@.uf, run@));
                                        assert(plist(self@, pat@, p as nat, ps.subrange(i as int, np as int), ch@, s@));
                                        assert forall|k2: int| 0 <= k2 < ch@.len() implies (#[trigger] ch@[k2]) < self@.len() by {
                                            if k2 < m {
                                                assert(run@[k2] < self@.len());
                                            } else {
                                                assert(old_ch[k2 - m] < self@.len());
                                            }
                                        }
                                        assert forall|j: int|
                                            0 <= j < g0.len() && g0.canonical() && g0.congruent() && g0.nodes[j].0 == k && #[trigger] plist(
                                                g0,
                                                pat@,
                                                p as nat,
                                                ps,
                                                g0.nodes[j].1,
                                                s@,
                                            ) implies self@ == g0 && exists|a: int|
                                                0 <= a <= g0.nodes[j].1.len() && #[trigger] plist(
                                                    g0,
                                                    pat@,
                                                    p as nat,
                                                    ps.subrange(0, i as int),
                                                    g0.nodes[j].1.subrange(0, a),
                                                    s@,
                                                ) && canon_ids(g0.uf, ch@) == canon_ids(g0.uf, g0.nodes[j].1.subrange(a, g0.nodes[j].1.len() as int)) by {
                                            let ids = g0.nodes[j].1;
                                            let n = ids.len() as int;
                                            let a = choose|a: int|
                                                0 <= a <= n && #[trigger] plist(g0, pat@, p as nat, ps.subrange(0, i + 1), ids.subrange(0, a), s@)
                                                    && canon_ids(g0.uf, old_ch) == canon_ids(g0.uf, ids.subrange(a, n));
                                            let pre = ps.subrange(0, i + 1);
                                            let ia = ids.subrange(0, a);
                                            lemma_plist_split(g0, pat@, p as nat, pre, ia, s@, i as int);
                                            let a2 = choose|a2: int|
                                                0 <= a2 <= ia.len() && #[trigger] plist(g0, pat@, p as nat, pre.subrange(0, i as int), ia.subrange(0, a2), s@)
                                                    && plist(g0, pat@, p as nat, pre.subrange(i as int, pre.len() as int), ia.subrange(a2, ia.len() as int), s@);
                                            assert(pre.subrange(0, i as int) =~= ps.subrange(0, i as int));
                                            assert(ia.subrange(0, a2) =~= ids.subrange(0, a2));
                                            assert(pre.subrange(i as int, pre.len() as int) =~= seq![q]);
                                            lemma_plist_single(g0, pat@, p as nat, q, ia.subrange(a2, ia.len() as int), s@);
                                            assert(canon_ids(g0.uf, ia.subrange(a2, ia.len() as int)) == canon_ids(g0.uf, run@));
                                            assert(ia.subrange(a2, ia.len() as int) =~= ids.subrange(a2, a));
                                            assert(ids.subrange(a2, n) =~= ids.subrange(a2, a) + ids.subrange(a, n));
                                            assert(canon_ids(g0.uf, ids.subrange(a2, n)) =~= canon_ids(g0.uf, ids.subrange(a2, a)) + canon_ids(g0.uf, ids.subrange(a, n)));
                                            assert(canon_ids(g0.uf, ch@) =~= canon_ids(g0.uf, run@) + canon_ids(g0.uf, old_ch));
                                            assert(canon_ids(g0.uf, ch@) == canon_ids(g0.uf, ids.subrange(a2, n)));
                                        }
                                    }
                                },
                                None => {
                                    proof {
                                        assert forall|c0: usize|
                                            c0 < g0.len() && g0.canonical() && g0.congruent() && #[trigger] pmatch(g0, pat@, p as nat, c0, s@)
                                            implies self@ == g0 by {
                                            lemma_present_witness(g0, pat@, p as nat, k, c0, s@);
                                        }
                                    }
                                    return None;
                                },
                            }
                        },
                        _ => {
                            let ghost g1 = self@;
                            let ghost old_ch = ch@;
                            let rx = self.instantiate(pat, q, s);
                            proof {
                                assert forall|j: int|
                                    0 <= j < g0.len() && g0.canonical() && g0.congruent() && g0.nodes[j].0 == k && #[trigger] plist(
                                        g0,
                                        pat@,
                                        p as nat,
                                        ps,
                                        g0.nodes[j].1,
                                        s@,
                                    ) implies self@ == g0 by {
                                    let ids = g0.nodes[j].1;
                                    let n = ids.len() as int;
                                    assert(g1 == g0);
                                    let a = choose|a: int|
                                        0 <= a <= n && #[trigger] plist(g0, pat@, p as nat, ps.subrange(0, i + 1), ids.subrange(0, a), s@)
                                            && canon_ids(g0.uf, old_ch) == canon_ids(g0.uf, ids.subrange(a, n));
                                    let pre = ps.subrange(0, i + 1);
                                    let ia = ids.subrange(0, a);
                                    lemma_plist_split(g0, pat@, p as nat, pre, ia, s@, i as int);
                                    let a2 = choose|a2: int|
                                        0 <= a2 <= ia.len() && #[trigger] plist(g0, pat@, p as nat, pre.subrange(0, i as int), ia.subrange(0, a2), s@)
                                            && plist(g0, pat@, p as nat, pre.subrange(i as int, pre.len() as int), ia.subrange(a2, ia.len() as int), s@);
                                    assert(pre.subrange(i as int, pre.len() as int) =~= seq![q]);
                                    lemma_plist_single(g0, pat@, p as nat, q, ia.subrange(a2, ia.len() as int), s@);
                                    assert(ia.subrange(a2, ia.len() as int)[0] == ids[a2]);
                                    assert(ids_below(ids, g0.len()));
                                    assert(pmatch(g1, pat@, q as nat, ids[a2], s@));
                                }
                            }
                            let x = match rx {
                                Some(x) => x,
                                None => {
                                    proof {
                                        lemma_extends_trans(g0, g1, self@);
                                        assert forall|c0: usize|
                                            c0 < g0.len() && g0.canonical() && g0.congruent() && #[trigger] pmatch(g0, pat@, p as nat, c0, s@)
                                            implies self@ == g0 by {
                                            lemma_present_witness(g0, pat@, p as nat, k, c0, s@);
                                        }
                                    }
                                    return None;
                                },
                            };
                            let ghost g2 = self@;
                            let mut nch: Vec<usize> = Vec::new();
                            nch.push(x);
                            let mut t: usize = 0;
                            while t < ch.len()
                                invariant
                                    t <= ch@.len(),
                                    nch@ =~= seq![x] + ch@.subrange(0, t as int),
                                decreases ch@.len() - t,
                            {
                                nch.push(ch[t]);
                                t = t + 1;
                            }
                            ch = nch;
                            proof {
                                lemma_extends_trans(g0, g1, g2);
                                lemma_only_adds_trans(g0, g1, g2);
                                lemma_subst_below_grow(s@, g1.len(), g2.len());
                                assert(old_ch.subrange(0, old_ch.len() as int) =~= old_ch);
                                lemma_plist_extends(g1, g2, pat@, p as nat, ps.subrange(i + 1, np as int), old_ch, old_ch, s@, s@);
                                assert(ch@ =~= seq![x] + old_ch);
                                assert(ch@.drop_first() =~= old_ch);
                                assert(ch@[0] == x);
                                assert(plist(g2, pat@, p as nat, ps.subrange(i as int, np as int), ch@, s@));
                                assert forall|k2: int| 0 <= k2 < ch@.len() implies (#[trigger] ch@[k2]) < g2.len() by {
                                    if k2 > 0 {
                                        assert(old_ch[k2 - 1] < g1.len());
                                    }
                                }
                                assert forall|j: int|
                                    0 <= j < g0.len() && g0.canonical() && g0.congruent() && g0.nodes[j].0 == k && #[trigger] plist(
                                        g0,
                                        pat@,
                                        p as nat,
                                        ps,
                                        g0.nodes[j].1,
                                        s@,
                                    ) implies self@ == g0 && exists|a: int|
                                        0 <= a <= g0.nodes[j].1.len() && #[trigger] plist(
                                            g0,
                                            pat@,
                                            p as nat,
                                            ps.subrange(0, i as int),
                                            g0.nodes[j].1.subrange(0, a),
                                            s@,
                                        ) && canon_ids(g0.uf, ch@) == canon_ids(g0.uf, g0.nodes[j].1.subrange(a, g0.nodes[j].1.len() as int)) by {
                                    let ids = g0.nodes[j].1;
                                    let n = ids.len() as int;
                                    assert(g1 == g0);
                                    let a = choose|a: int|
                                        0 <= a <= n && #[trigger] plist(g0, pat@, p as nat, ps.subrange(0, i + 1), ids.subrange(0, a), s@)
                                            && canon_ids(g0.uf, old_ch) == canon_ids(g0.uf, ids.subrange(a, n));
                                    let pre = ps.subrange(0, i + 1);
                                    let ia = ids.subrange(0, a);
                                    lemma_plist_split(g0, pat@, p as nat, pre, ia, s@, i as int);
                                    let a2 = choose|a2: int|
                                        0 <= a2 <= ia.len() && #[trigger] plist(g0, pat@, p as nat, pre.subrange(0, i as int), ia.subrange(0, a2), s@)
                                            && plist(g0, pat@, p as nat, pre.subrange(i as int, pre.len() as int), ia.subrange(a2, ia.len() as int), s@);
                                    assert(pre.subrange(0, i as int) =~= ps.subrange(0, i as int));
                                    assert(ia.subrange(0, a2) =~= ids.subrange(0, a2));
                                    assert(pre.subrange(i as int, pre.len() as int) =~= seq![q]);
                                    lemma_plist_single(g0, pat@, p as nat, q, ia.subrange(a2, ia.len() as int), s@);
                                    assert(ia.subrange(a2, ia.len() as int)[0] == ids[a2]);
                                    assert(ids_below(ids, g0.len()));
                                    assert(ids[a2] < g0.len());
                                    assert(pmatch(g1, pat@, q as nat, ids[a2], s@));
                                    assert(g2 == g1);
                                    assert(g0.uf[x as int] == g0.uf[ids[a2] as int]);
                                    assert(a == a2 + 1);
                                    assert(ids.subrange(a2, n) =~= seq![ids[a2]] + ids.subrange(a, n));
                                    assert(canon_ids(g0.uf, ids.subrange(a2, n)) =~= seq![g0.uf[ids[a2] as int]] + canon_ids(g0.uf, ids.subrange(a, n)));
                                    assert(canon_ids(g0.uf, ch@) =~= seq![g0.uf[x as int]] + canon_ids(g0.uf, old_ch));
                                }
                            }
                        },
                    }
                }
                proof {
                    assert(ps.subrange(0, np as int) =~= ps);
                    assert(tree_size(pat@, p as nat) == 1 + list_size(pat@, p as nat, ps));
                }
                if self.uf.len() == usize::MAX {
                    proof {
                        assert forall|c0: usize|
                            c0 < g0.len() && g0.canonical() && g0.congruent() && #[trigger] pmatch(g0, pat@, p as nat, c0, s@)
                            implies self@ == g0 by {
                            lemma_present_witness(g0, pat@, p as nat, k, c0, s@);
                        }
                    }
                    return None;
                }
                let ghost g1 = self@;
                let ghost chv = ch@;
                let node = ENode::new(k, ch);
                let c = self.add(node);
                proof {
                    assert(ps.subrange(0, np as int) =~= ps);
                    let g2 = self@;
                    lemma_add_extends(g1, (k, chv));
                    lemma_extends_trans(g0, g1, g2);
                    assert(only_adds(g1, g2));
                    lemma_only_adds_trans(g0, g1, g2);
                    // the class of `c` holds a node with the canonical form of (k, chv)
                    let cn = canon(g1.uf, (k, chv));
                    let j: int = match g1.find_from(cn, 0) {
                        Some(j) => {
                            crate::egraph::lemma_find_from_is_match(g1, cn, 0);
                            j as int
                        },
                        None => g1.len() as int,
                    };
                    assert(0 <= j < g2.len());
                    assert(g2.uf[j] == g2.uf[c as int]);
                    assert(g2.nodes[j].0 == k);
                    assert(ids_below(g2.nodes[j].1, g2.len()));
                    assert(canon_ids(g2.uf, chv) == canon_ids(g2.uf, g2.nodes[j].1)) by {
                        assert(canon_ids(g2.uf, chv) =~= canon_ids(g1.uf, chv));
                        assert forall|t: int| 0 <= t < chv.len() implies canon_ids(g2.uf, chv)[t] == canon_ids(g2.uf, g2.nodes[j].1)[t] by {
                            assert(chv[t] < g1.len());
                            if j < g1.len() {
                                assert(canon(g1.uf, g1.nodes[j]) == cn);
                                assert(canon(g1.uf, g1.nodes[j]).1.len() == g1.nodes[j].1.len());
                                assert(cn.1.len() == chv.len());
                                assert(cn.1[t] == canon_ids(g1.uf, g1.nodes[j].1)[t]);
                                assert(g2.nodes[j] == g1.nodes[j]);
                                assert(ids_below(g1.nodes[j].1, g1.len()));
                                assert(canon_ids(g1.uf, g1.nodes[j].1)[t] == g1.uf[g1.nodes[j].1[t] as int]);
                                assert(g1.nodes[j].1[t] < g1.len());
                            } else {
                                assert(g2.nodes[j] == cn);
                                assert(g1.uf[chv[t] as int] < g1.len());
                            }
                        }
                        assert(canon_ids(g2.uf, g2.nodes[j].1).len() == chv.len());
                        assert(canon_ids(g2.uf, chv) =~= canon_ids(g2.uf, g2.nodes[j].1));
                    }
                    crate::matcher::lemma_graph_extends_refl(g2);
                    lemma_subst_below_grow(s@, g1.len(), g2.len());
                    lemma_plist_extends(g1, g2, pat@, p as nat, ps, chv, g2.nodes[j].1, s@, s@);
                    assert(pmatch(g2, pat@, p as nat, c, s@));
                    assert forall|c0: usize|
                        c0 < g0.len() && g0.canonical() && g0.congruent() && #[trigger] pmatch(g0, pat@, p as nat, c0, s@)
                        implies self@ == g0 && g0.uf[c as int] == g0.uf[c0 as int] by {
                        let w = choose|w: int|
                            0 <= w < g0.len() && #[trigger] g0.uf[w] == g0.uf[c0 as int] && g0.nodes[w].0 == k
                                && plist(g0, pat@, p as nat, pat@[p as int].1, g0.nodes[w].1, s@);
                        let ids = g0.nodes[w].1;
                        let a = choose|a: int|
                            0 <= a <= ids.len() && #[trigger] plist(g0, pat@, p as nat, ps.subrange(0, 0), ids.subrange(0, a), s@)
                                && canon_ids(g0.uf, chv) == canon_ids(g0.uf, ids.subrange(a, ids.len() as int));
                        assert(ps.subrange(0, 0).len() == 0);
                        assert(a == 0);
                        assert(ids.subrange(0, ids.len() as int) =~= ids);
                        assert(g1 == g0);
                        crate::egraph::lemma_canonical_node(g0, w);
                        assert(canon(g0.uf, (k, chv)) == g0.nodes[w]);
                        if g0.find_from(cn, 0) is None {
                            crate::egraph::lemma_find_from_none(g0, cn, 0);
                            assert(false);
                        }
                        let j2 = g0.find_from(cn, 0)->0 as int;
                        crate::egraph::lemma_find_from_is_match(g0, cn, 0);
                        crate::egraph::lemma_canonical_node(g0, j2);
                        assert(g0.nodes[j2] == g0.nodes[w]);
                        assert(g0.uf[j2] == g0.uf[w]);
                    }
                }
                Some(c)
            },
        }
    }
}

} // verus!
