//! The matcher: every substitution under which a pattern matches a class.
//!
//! A sequence wildcard tries every split of the child list, so when several
//! splits fit, each one is reported as a match of its own.
use vstd::prelude::*;
use crate::egraph::{EGraph, GraphView, canon, canon_ids, ids_below, refines};
use crate::pattern::{PatKind, Pattern, SubstView, pattern_wf, pmatch, plist, subst_extends, graph_extends, lemma_pmatch_extends, split_pattern, lemma_split_matches};
use crate::term::Kind;
use crate::term::same_ids;

verus! {

/// A substitution: for each variable number, nothing yet or the bound run of
/// class ids.
pub struct Subst {
    pub binds: Vec<Option<Vec<usize>>>,
}

pub open spec fn opt_view(o: Option<Vec<usize>>) -> Option<Seq<usize>> {
    match o {
        Some(v) => Some(v@),
        None => None,
    }
}

impl View for Subst {
    type V = SubstView;

    open spec fn view(&self) -> SubstView {
        self.binds@.map_values(|o: Option<Vec<usize>>| opt_view(o))
    }
}

/// Every bound id names a class of a graph with `len` nodes.
pub open spec fn subst_below(s: SubstView, len: nat) -> bool {
    forall|v: int| 0 <= v < s.len() && (#[trigger] s[v]) is Some ==> ids_below(s[v]->0, len)
}

/// `r` is a match of pattern node `p` at class `c` that extends `s`.
pub open spec fn class_match_ok(g: GraphView, pat: Seq<crate::pattern::PatView>, p: nat, c: usize, s: SubstView, r: SubstView) -> bool {
    &&& subst_extends(s, r)
    &&& subst_below(r, g.len())
    &&& pmatch(g, pat, p, c, r)
}

/// `r` matches the sub-patterns of `parent` from position `pi` on against
/// `ids` from position `ii` on, extending `s`.
pub open spec fn list_match_ok(
    g: GraphView,
    pat: Seq<crate::pattern::PatView>,
    parent: nat,
    pi: int,
    ids: Seq<usize>,
    ii: int,
    s: SubstView,
    r: SubstView,
) -> bool {
    &&& subst_extends(s, r)
    &&& subst_below(r, g.len())
    &&& plist(g, pat, parent, pat[parent as int].1.subrange(pi, pat[parent as int].1.len() as int), ids.subrange(ii, ids.len() as int), r)
}

pub(crate) proof fn lemma_graph_extends_refl(g: GraphView)
    ensures
        graph_extends(g, g),
{
}

proof fn lemma_subst_extends_trans(a: SubstView, b: SubstView, c: SubstView)
    requires
        subst_extends(a, b),
        subst_extends(b, c),
    ensures
        subst_extends(a, c),
{
}

impl Subst {
    /// A substitution for `n` variables with nothing bound.
    pub fn empty(n: usize) -> (r: Subst)
        ensures
            r@.len() == n,
            forall|v: int| 0 <= v < n ==> (#[trigger] r@[v]) is None,
    {
        let mut binds: Vec<Option<Vec<usize>>> = Vec::new();
        let mut i: usize = 0;
        while i < n
            invariant
                i <= n,
                binds@.len() == i,
                forall|v: int| 0 <= v < i ==> (#[trigger] binds@[v]) is None,
            decreases n - i,
        {
            binds.push(None);
            i = i + 1;
        }
        Subst { binds }
    }

    /// A copy with the same bindings.
    pub fn copy(&self) -> (r: Subst)
        ensures
            r@ == self@,
    {
        let mut binds: Vec<Option<Vec<usize>>> = Vec::new();
        let mut i: usize = 0;
        while i < self.binds.len()
            invariant
                i <= self.binds@.len(),
                binds@.len() == i,
                forall|v: int| 0 <= v < i ==> opt_view(#[trigger] binds@[v]) == opt_view(self.binds@[v]),
            decreases self.binds@.len() - i,
        {
            let b = match &self.binds[i] {
                Some(run) => Some(crate::term::copy_ids(run)),
                None => None,
            };
            binds.push(b);
            i = i + 1;
        }
        let r = Subst { binds };
        assert(r@ =~= self@);
        r
    }

    /// A copy with variable `v` bound to `run`.
    pub fn with(&self, v: usize, run: Vec<usize>) -> (r: Subst)
        requires
            v < self@.len(),
        ensures
            r@ == self@.update(v as int, Some(run@)),
    {
        let mut r = self.copy();
        r.binds.set(v, Some(run));
        assert(r@ =~= self@.update(v as int, Some(run@)));
        r
    }

    /// The run bound to `v`, if any.
    pub fn get(&self, v: usize) -> (r: Option<&Vec<usize>>)
        requires
            v < self@.len(),
        ensures
            match r {
                Some(x) => self@[v as int] == Some(x@),
                None => self@[v as int] is None,
            },
    {
        match &self.binds[v] {
            Some(x) => Some(x),
            None => None,
        }
    }
}

/// The canonical ids of `ids[from..to]`.
fn canon_run(g: &EGraph, ids: &Vec<usize>, from: usize, to: usize) -> (r: Vec<usize>)
    requires
        g@.wf(),
        ids_below(ids@, g@.len()),
        from <= to <= ids@.len(),
    ensures
        r@ == canon_ids(g@.uf, ids@.subrange(from as int, to as int)),
        ids_below(r@, g@.len()),
{
    let mut r: Vec<usize> = Vec::new();
    let mut t: usize = from;
    while t < to
        invariant
            g@.wf(),
            ids_below(ids@, g@.len()),
            from <= t <= to <= ids@.len(),
            r@ =~= canon_ids(g@.uf, ids@.subrange(from as int, t as int)),
            ids_below(r@, g@.len()),
        decreases to - t,
    {
        assert(ids@[t as int] < g@.len());
        r.push(g.find(ids[t]));
        t = t + 1;
        assert(r@ =~= canon_ids(g@.uf, ids@.subrange(from as int, t as int)));
    }
    r
}

/// `r` binds, class by class, everything that `s` binds.
pub open spec fn subst_covers(g: GraphView, s: SubstView, r: SubstView) -> bool {
    &&& s.len() == r.len()
    &&& forall|v: int|
        0 <= v < s.len() && (#[trigger] s[v]) is Some ==> r[v] is Some && canon_ids(g.uf, s[v]->0) == canon_ids(
            g.uf,
            r[v]->0,
        )
}

/// Some substitution of `out` is covered by `r`.
pub open spec fn some_covered(g: GraphView, out: Seq<Subst>, r: SubstView) -> bool {
    exists|t: int| 0 <= t < out.len() && subst_covers(g, (#[trigger] out[t])@, r)
}

proof fn lemma_covered_append(g: GraphView, a: Seq<Subst>, b: Seq<Subst>, r: SubstView)
    requires
        some_covered(g, a, r) || some_covered(g, b, r),
    ensures
        some_covered(g, a + b, r),
{
    if some_covered(g, a, r) {
        let t = choose|t: int| 0 <= t < a.len() && subst_covers(g, (#[trigger] a[t])@, r);
        assert((a + b)[t] == a[t]);
    } else {
        let t = choose|t: int| 0 <= t < b.len() && subst_covers(g, (#[trigger] b[t])@, r);
        assert((a + b)[t + a.len()] == b[t]);
    }
}

/// Every substitution extending `s` under which pattern node `p` matches
/// class `c`; every match that binds what `s` binds is found, up to the
/// classes of the bound ids.
pub fn match_class(g: &EGraph, pat: &Pattern, p: usize, c: usize, s: &Subst) -> (out: Vec<Subst>)
    requires
        g@.wf(),
        pattern_wf(pat@),
        p < pat@.len(),
        c < g@.len(),
        subst_below(s@, g@.len()),
    ensures
        forall|t: int| 0 <= t < out@.len() ==> class_match_ok(g@, pat@, p as nat, c, s@, #[trigger] out@[t]@),
        forall|r: SubstView|
            subst_covers(g@, s@, r) && subst_below(r, g@.len()) && #[trigger] pmatch(g@, pat@, p as nat, c, r)
                ==> some_covered(g@, out@, r),
    decreases p, 1nat, 0nat,
{
    let mut out: Vec<Subst> = Vec::new();
    assert(pat.nodes@[p as int]@ == pat@[p as int]);
    match pat.nodes[p].kind {
        PatKind::Var(v) => {
            if v >= s.binds.len() {
                return out;
            }
            let rc = g.find(c);
            match s.get(v) {
                None => {
                    let mut run: Vec<usize> = Vec::new();
                    run.push(rc);
                    let r = s.with(v, run);
                    proof {
                        assert(g@.uf[rc as int] == g@.uf[c as int]);
                        assert forall|w: int| 0 <= w < r@.len() && (#[trigger] r@[w]) is Some implies ids_below(r@[w]->0, g@.len()) by {
                            if w != v {
                                assert(s@[w] == r@[w]);
                            }
                        }
                    }
                    out.push(r);
                    proof {
                        assert forall|r2: SubstView|
                            subst_covers(g@, s@, r2) && subst_below(r2, g@.len()) && #[trigger] pmatch(g@, pat@, p as nat, c, r2)
                            implies some_covered(g@, out@, r2) by {
                            let x = r2[v as int]->0;
                            assert(canon_ids(g@.uf, r@[v as int]->0) =~= canon_ids(g@.uf, x));
                            assert forall|w: int| 0 <= w < r@.len() && (#[trigger] r@[w]) is Some implies r2[w] is Some
                                && canon_ids(g@.uf, r@[w]->0) == canon_ids(g@.uf, r2[w]->0) by {
                                if w != v {
                                    assert(s@[w] == r@[w]);
                                }
                            }
                            assert(subst_covers(g@, out@[0]@, r2));
                        }
                    }
                },
                Some(b) => {
                    if b.len() == 1 && b[0] < g.uf.len() && g.find(b[0]) == rc {
                        out.push(s.copy());
                    }
                    proof {
                        assert forall|r2: SubstView|
                            subst_covers(g@, s@, r2) && subst_below(r2, g@.len()) && #[trigger] pmatch(g@, pat@, p as nat, c, r2)
                            implies some_covered(g@, out@, r2) by {
                            let x = r2[v as int]->0;
                            assert(canon_ids(g@.uf, b@) == canon_ids(g@.uf, x));
                            assert(canon_ids(g@.uf, b@).len() == b@.len());
                            assert(ids_below(b@, g@.len()));
                            assert(canon_ids(g@.uf, b@)[0] == canon_ids(g@.uf, x)[0]);
                            assert(subst_covers(g@, out@[0]@, r2));
                        }
                    }
                },
            }
        },
        PatKind::Rest(_) => {},
        PatKind::Node(k) => {
            let mut j: usize = 0;
            let n = g.uf.len();
            while j < n
                invariant
                    g@.wf(),
                    pattern_wf(pat@),
                    p < pat@.len(),
                    c < g@.len(),
                    n == g@.len(),
                    j <= n,
                    subst_below(s@, g@.len()),
                    pat@[p as int].0 == PatKind::Node(k),
                    forall|t: int| 0 <= t < out@.len() ==> class_match_ok(g@, pat@, p as nat, c, s@, #[trigger] out@[t]@),
                    forall|r: SubstView|
                        subst_covers(g@, s@, r) && subst_below(r, g@.len()) && (exists|j2: int|
                            0 <= j2 < j && #[trigger] g@.uf[j2] == g@.uf[c as int] && g@.nodes[j2].0 == k && plist(
                                g@,
                                pat@,
                                p as nat,
                                pat@[p as int].1,
                                g@.nodes[j2].1,
                                r,
                            )) ==> #[trigger] some_covered(g@, out@, r),
                decreases n - j,
            {
                let nj = g.node(j);
                if g.find(j) == g.find(c) && nj.kind == k {
                    assert(ids_below(g@.nodes[j as int].1, g@.len()));
                    let mut sub = match_list(g, pat, p, 0, &nj.children, 0, s);
                    let ghost old_out = out@;
                    let ghost subv = sub@;
                    out.append(&mut sub);
                    proof {
                        assert(pat@[p as int].1.subrange(0, pat@[p as int].1.len() as int) =~= pat@[p as int].1);
                        assert(nj.children@.subrange(0, nj.children@.len() as int) =~= nj.children@);
                        assert forall|t: int| 0 <= t < out@.len() implies class_match_ok(g@, pat@, p as nat, c, s@, #[trigger] out@[t]@) by {
                            if t >= old_out.len() {
                                let r = subv[t - old_out.len()];
                                assert(out@[t] == r);
                                assert(list_match_ok(g@, pat@, p as nat, 0, nj.children@, 0, s@, r@));
                                assert(plist(g@, pat@, p as nat, pat@[p as int].1, g@.nodes[j as int].1, r@));
                            } else {
                                assert(out@[t] == old_out[t]);
                            }
                        }
                        assert forall|r: SubstView|
                            subst_covers(g@, s@, r) && subst_below(r, g@.len()) && (exists|j2: int|
                                0 <= j2 < j + 1 && #[trigger] g@.uf[j2] == g@.uf[c as int] && g@.nodes[j2].0 == k && plist(
                                    g@,
                                    pat@,
                                    p as nat,
                                    pat@[p as int].1,
                                    g@.nodes[j2].1,
                                    r,
                                )) implies #[trigger] some_covered(g@, out@, r) by {
                            let j2 = choose|j2: int|
                                0 <= j2 < j + 1 && #[trigger] g@.uf[j2] == g@.uf[c as int] && g@.nodes[j2].0 == k && plist(
                                    g@,
                                    pat@,
                                    p as nat,
                                    pat@[p as int].1,
                                    g@.nodes[j2].1,
                                    r,
                                );
                            if j2 == j {
                                assert(plist(g@, pat@, p as nat, pat@[p as int].1.subrange(0, pat@[p as int].1.len() as int), nj.children@.subrange(0, nj.children@.len() as int), r));
                                assert(some_covered(g@, subv, r));
                            } else {
                                assert(some_covered(g@, old_out, r));
                            }
                            lemma_covered_append(g@, old_out, subv, r);
                        }
                    }
                } else {
                    proof {
                        assert forall|r: SubstView|
                            subst_covers(g@, s@, r) && subst_below(r, g@.len()) && (exists|j2: int|
                                0 <= j2 < j + 1 && #[trigger] g@.uf[j2] == g@.uf[c as int] && g@.nodes[j2].0 == k && plist(
                                    g@,
                                    pat@,
                                    p as nat,
                                    pat@[p as int].1,
                                    g@.nodes[j2].1,
                                    r,
                                )) implies #[trigger] some_covered(g@, out@, r) by {
                            let j2 = choose|j2: int|
                                0 <= j2 < j + 1 && #[trigger] g@.uf[j2] == g@.uf[c as int] && g@.nodes[j2].0 == k && plist(
                                    g@,
                                    pat@,
                                    p as nat,
                                    pat@[p as int].1,
                                    g@.nodes[j2].1,
                                    r,
                                );
                            assert(j2 != j);
                        }
                    }
                }
                j = j + 1;
            }
            proof {
                assert forall|r: SubstView|
                    subst_covers(g@, s@, r) && subst_below(r, g@.len()) && #[trigger] pmatch(g@, pat@, p as nat, c, r)
                    implies some_covered(g@, out@, r) by {
                    let j2 = choose|j2: int|
                        0 <= j2 < g@.len() && #[trigger] g@.uf[j2] == g@.uf[c as int] && g@.nodes[j2].0 == k
                            && plist(g@, pat@, p as nat, pat@[p as int].1, g@.nodes[j2].1, r);
                    assert(0 <= j2 < j);
                }
            }
        },
    }
    out
}

/// Every substitution extending `s` under which the sub-patterns of node
/// `parent` from position `pi` on match the ids from position `ii` on. A
/// wildcard tries every split; every match that binds what `s` binds is
/// found, up to the classes of the bound ids.
pub fn match_list(
    g: &EGraph,
    pat: &Pattern,
    parent: usize,
    pi: usize,
    ids: &Vec<usize>,
    ii: usize,
    s: &Subst,
) -> (out: Vec<Subst>)
    requires
        g@.wf(),
        pattern_wf(pat@),
        parent < pat@.len(),
        pi <= pat@[parent as int].1.len(),
        ii <= ids@.len(),
        ids_below(ids@, g@.len()),
        subst_below(s@, g@.len()),
    ensures
        forall|t: int| 0 <= t < out@.len() ==> list_match_ok(g@, pat@, parent as nat, pi as int, ids@, ii as int, s@, #[trigger] out@[t]@),
        forall|r: SubstView|
            subst_covers(g@, s@, r) && subst_below(r, g@.len()) && #[trigger] plist(
                g@,
                pat@,
                parent as nat,
                pat@[parent as int].1.subrange(pi as int, pat@[parent as int].1.len() as int),
                ids@.subrange(ii as int, ids@.len() as int),
                r,
            ) ==> some_covered(g@, out@, r),
    decreases parent, 0nat, pat@[parent as int].1.len() - pi,
{
    let ghost ps = pat@[parent as int].1;
    let ghost rest_ps = ps.subrange(pi as int, ps.len() as int);
    let ghost rest_ids = ids@.subrange(ii as int, ids@.len() as int);
    assert(pat.nodes@[parent as int]@ == pat@[parent as int]);
    let mut out: Vec<Subst> = Vec::new();
    let np = pat.nodes[parent].children.len();
    let nid = ids.len();
    if pi == np {
        if ii == ids.len() {
            proof {
                lemma_subst_extends_trans(s@, s@, s@);
            }
            out.push(s.copy());
        }
        proof {
            assert forall|r: SubstView|
                subst_covers(g@, s@, r) && subst_below(r, g@.len()) && #[trigger] plist(g@, pat@, parent as nat, rest_ps, rest_ids, r)
                implies some_covered(g@, out@, r) by {
                assert(rest_ps.len() == 0);
                assert(rest_ids.len() == 0);
                assert(out@[0]@ == s@);
            }
        }
        return out;
    }
    let q = pat.nodes[parent].children[pi];
    assert(q == rest_ps[0]);
    assert(q < parent);
    assert(rest_ps.drop_first() =~= ps.subrange(pi + 1, ps.len() as int));
    assert(pat.nodes@[q as int]@ == pat@[q as int]);
    match pat.nodes[q].kind {
        PatKind::Rest(v) => {
            if v >= s.binds.len() {
                return out;
            }
            let mut m: usize = ii;
            loop
                invariant
                    g@.wf(),
                    pattern_wf(pat@),
                    parent < pat@.len(),
                    pi < pat@[parent as int].1.len(),
                    ps == pat@[parent as int].1,
                    rest_ps == ps.subrange(pi as int, ps.len() as int),
                    rest_ids == ids@.subrange(ii as int, ids@.len() as int),
                    q == rest_ps[0],
                    q < parent,
                    pat@[q as int].0 == PatKind::Rest(v),
                    v < s@.len(),
                    rest_ps.drop_first() == ps.subrange(pi + 1, ps.len() as int),
                    ii <= m <= ids@.len(),
                    np == ps.len(),
                    nid == ids@.len(),
                    ids_below(ids@, g@.len()),
                    subst_below(s@, g@.len()),
                    forall|t: int| 0 <= t < out@.len() ==> list_match_ok(g@, pat@, parent as nat, pi as int, ids@, ii as int, s@, #[trigger] out@[t]@),
                    forall|r: SubstView|
                        subst_covers(g@, s@, r) && subst_below(r, g@.len()) && (exists|m2: int|
                            ii <= m2 < m && r[v as int] is Some && #[trigger] canon_ids(g@.uf, ids@.subrange(ii as int, m2))
                                == canon_ids(g@.uf, r[v as int]->0) && plist(g@, pat@, parent as nat, ps.subrange(pi + 1, ps.len() as int), ids@.subrange(m2, ids@.len() as int), r))
                            ==> #[trigger] some_covered(g@, out@, r),
                ensures
                    forall|t: int| 0 <= t < out@.len() ==> list_match_ok(g@, pat@, parent as nat, pi as int, ids@, ii as int, s@, #[trigger] out@[t]@),
                    forall|r: SubstView|
                        subst_covers(g@, s@, r) && subst_below(r, g@.len()) && (exists|m2: int|
                            ii <= m2 <= nid && r[v as int] is Some && #[trigger] canon_ids(g@.uf, ids@.subrange(ii as int, m2))
                                == canon_ids(g@.uf, r[v as int]->0) && plist(g@, pat@, parent as nat, ps.subrange(pi + 1, ps.len() as int), ids@.subrange(m2, ids@.len() as int), r))
                            ==> #[trigger] some_covered(g@, out@, r),
                decreases ids@.len() - m,
            {
                let run = canon_run(g, ids, ii, m);
                proof {
                    lemma_canon_idem(g@, ids@.subrange(ii as int, m as int));
                }
                let next = match s.get(v) {
                    None => Some(s.with(v, run)),
                    Some(b) => {
                        let mut ok = true;
                        let mut t: usize = 0;
                        while t < b.len()
                            invariant
                                t <= b@.len(),
                                ok == forall|u: int| 0 <= u < t ==> (#[trigger] b@[u]) < g@.len(),
                            decreases b@.len() - t,
                        {
                            if b[t] >= g.uf.len() {
                                ok = false;
                            }
                            t = t + 1;
                        }
                        if ok {
                            let cb = g.canon_ids(b);
                            if same_ids(&cb, &run) {
                                Some(s.copy())
                            } else {
                                None
                            }
                        } else {
                            None
                        }
                    },
                };
                let ghost old_out = out@;
                match next {
                    Some(s2) => {
                        proof {
                            assert(subst_extends(s@, s2@));
                            assert forall|w: int| 0 <= w < s2@.len() && (#[trigger] s2@[w]) is Some implies ids_below(s2@[w]->0, g@.len()) by {
                                if w != v {
                                    assert(s@[w] == s2@[w]);
                                }
                            }
                            assert(s2@[v as int] is Some);
                            assert(canon_ids(g@.uf, s2@[v as int]->0) == canon_ids(g@.uf, ids@.subrange(ii as int, m as int)));
                        }
                        let mut sub = match_list(g, pat, parent, pi + 1, ids, m, &s2);
                        let ghost subv = sub@;
                        out.append(&mut sub);
                        proof {
                            assert forall|t: int| 0 <= t < out@.len() implies list_match_ok(g@, pat@, parent as nat, pi as int, ids@, ii as int, s@, #[trigger] out@[t]@) by {
                                if t >= old_out.len() {
                                    let r = subv[t - old_out.len()];
                                    assert(out@[t] == r);
                                    assert(list_match_ok(g@, pat@, parent as nat, pi + 1, ids@, m as int, s2@, r@));
                                    lemma_subst_extends_trans(s@, s2@, r@);
                                    let mm = m - ii;
                                    assert(rest_ids.subrange(0, mm) =~= ids@.subrange(ii as int, m as int));
                                    assert(rest_ids.subrange(mm, rest_ids.len() as int) =~= ids@.subrange(m as int, ids@.len() as int));
                                    assert(r@[v as int] == s2@[v as int]);
                                    assert(canon_ids(g@.uf, rest_ids.subrange(0, mm)) == canon_ids(g@.uf, r@[v as int]->0));
                                    assert(plist(g@, pat@, parent as nat, rest_ps, rest_ids, r@));
                                } else {
                                    assert(out@[t] == old_out[t]);
                                }
                            }
                            assert forall|r: SubstView|
                                subst_covers(g@, s@, r) && subst_below(r, g@.len()) && (exists|m2: int|
                                    ii <= m2 < m + 1 && r[v as int] is Some && #[trigger] canon_ids(g@.uf, ids@.subrange(ii as int, m2))
                                        == canon_ids(g@.uf, r[v as int]->0) && plist(g@, pat@, parent as nat, ps.subrange(pi + 1, ps.len() as int), ids@.subrange(m2, ids@.len() as int), r))
                                implies #[trigger] some_covered(g@, out@, r) by {
                                let m2 = choose|m2: int|
                                    ii <= m2 < m + 1 && r[v as int] is Some && #[trigger] canon_ids(g@.uf, ids@.subrange(ii as int, m2))
                                        == canon_ids(g@.uf, r[v as int]->0) && plist(g@, pat@, parent as nat, ps.subrange(pi + 1, ps.len() as int), ids@.subrange(m2, ids@.len() as int), r);
                                if m2 == m {
                                    assert(subst_covers(g@, s2@, r)) by {
                                        assert forall|w: int| 0 <= w < s2@.len() && (#[trigger] s2@[w]) is Some implies r[w] is Some
                                            && canon_ids(g@.uf, s2@[w]->0) == canon_ids(g@.uf, r[w]->0) by {
                                            if w != v {
                                                assert(s@[w] == s2@[w]);
                                            }
                                        }
                                    }
                                    assert(some_covered(g@, subv, r));
                                } else {
                                    assert(some_covered(g@, old_out, r));
                                }
                                lemma_covered_append(g@, old_out, subv, r);
                            }
                        }
                    },
                    None => {
                        proof {
                            assert forall|r: SubstView|
                                subst_covers(g@, s@, r) && subst_below(r, g@.len()) && (exists|m2: int|
                                    ii <= m2 < m + 1 && r[v as int] is Some && #[trigger] canon_ids(g@.uf, ids@.subrange(ii as int, m2))
                                        == canon_ids(g@.uf, r[v as int]->0) && plist(g@, pat@, parent as nat, ps.subrange(pi + 1, ps.len() as int), ids@.subrange(m2, ids@.len() as int), r))
                                implies #[trigger] some_covered(g@, out@, r) by {
                                let m2 = choose|m2: int|
                                    ii <= m2 < m + 1 && r[v as int] is Some && #[trigger] canon_ids(g@.uf, ids@.subrange(ii as int, m2))
                                        == canon_ids(g@.uf, r[v as int]->0) && plist(g@, pat@, parent as nat, ps.subrange(pi + 1, ps.len() as int), ids@.subrange(m2, ids@.len() as int), r);
                                if m2 == m {
                                    let b = s@[v as int]->0;
                                    assert(s@[v as int] is Some);
                                    assert(ids_below(b, g@.len()));
                                    assert(canon_ids(g@.uf, b) == canon_ids(g@.uf, r[v as int]->0));
                                    assert(false);
                                }
                            }
                        }
                    },
                }
                if m == nid {
                    break;
                }
                m = m + 1;
            }
            proof {
                assert forall|r: SubstView|
                    subst_covers(g@, s@, r) && subst_below(r, g@.len()) && #[trigger] plist(g@, pat@, parent as nat, rest_ps, rest_ids, r)
                    implies some_covered(g@, out@, r) by {
                    let rr = r[v as int]->0;
                    let mp = choose|mp: int|
                        0 <= mp <= rest_ids.len() && ids_below(rr, g@.len()) && #[trigger] canon_ids(g@.uf, rest_ids.subrange(0, mp))
                            == canon_ids(g@.uf, rr) && plist(g@, pat@, parent as nat, rest_ps.drop_first(), rest_ids.subrange(mp, rest_ids.len() as int), r);
                    let m2 = ii + mp;
                    assert(rest_ids.subrange(0, mp) =~= ids@.subrange(ii as int, m2));
                    assert(rest_ids.subrange(mp, rest_ids.len() as int) =~= ids@.subrange(m2, ids@.len() as int));
                    assert(canon_ids(g@.uf, ids@.subrange(ii as int, m2)) == canon_ids(g@.uf, r[v as int]->0));
                }
            }
        },
        _ => {
            if ii < ids.len() {
                assert(ids@[ii as int] < g@.len());
                let firsts = match_class(g, pat, q, ids[ii], s);
                let mut idx: usize = 0;
                while idx < firsts.len()
                    invariant
                        g@.wf(),
                        pattern_wf(pat@),
                        parent < pat@.len(),
                        pi < pat@[parent as int].1.len(),
                        ps == pat@[parent as int].1,
                        rest_ps == ps.subrange(pi as int, ps.len() as int),
                        rest_ids == ids@.subrange(ii as int, ids@.len() as int),
                        q == rest_ps[0],
                        q < parent,
                        !(pat@[q as int].0 is Rest),
                        rest_ps.drop_first() == ps.subrange(pi + 1, ps.len() as int),
                        ii < ids@.len(),
                        np == ps.len(),
                        nid == ids@.len(),
                        idx <= firsts@.len(),
                        ids_below(ids@, g@.len()),
                        forall|t: int| 0 <= t < firsts@.len() ==> class_match_ok(g@, pat@, q as nat, ids@[ii as int], s@, #[trigger] firsts@[t]@),
                        forall|t: int| 0 <= t < out@.len() ==> list_match_ok(g@, pat@, parent as nat, pi as int, ids@, ii as int, s@, #[trigger] out@[t]@),
                        forall|r: SubstView|
                            subst_below(r, g@.len()) && plist(g@, pat@, parent as nat, ps.subrange(pi + 1, ps.len() as int), ids@.subrange(ii + 1, ids@.len() as int), r)
                                && (exists|t: int| 0 <= t < idx && subst_covers(g@, (#[trigger] firsts@[t])@, r))
                                ==> #[trigger] some_covered(g@, out@, r),
                    decreases firsts@.len() - idx,
                {
                    let s1 = &firsts[idx];
                    assert(class_match_ok(g@, pat@, q as nat, ids@[ii as int], s@, s1@));
                    let mut sub = match_list(g, pat, parent, pi + 1, ids, ii + 1, s1);
                    let ghost old_out = out@;
                    let ghost subv = sub@;
                    out.append(&mut sub);
                    proof {
                        assert forall|t: int| 0 <= t < out@.len() implies list_match_ok(g@, pat@, parent as nat, pi as int, ids@, ii as int, s@, #[trigger] out@[t]@) by {
                            if t >= old_out.len() {
                                let r = subv[t - old_out.len()];
                                assert(out@[t] == r);
                                assert(list_match_ok(g@, pat@, parent as nat, pi + 1, ids@, ii + 1, s1@, r@));
                                lemma_subst_extends_trans(s@, s1@, r@);
                                lemma_graph_extends_refl(g@);
                                lemma_pmatch_extends(g@, g@, pat@, q as nat, ids@[ii as int], ids@[ii as int], s1@, r@);
                                assert(rest_ids[0] == ids@[ii as int]);
                                assert(rest_ids.drop_first() =~= ids@.subrange(ii + 1, ids@.len() as int));
                                assert(plist(g@, pat@, parent as nat, rest_ps, rest_ids, r@));
                            } else {
                                assert(out@[t] == old_out[t]);
                            }
                        }
                        assert forall|r: SubstView|
                            subst_below(r, g@.len()) && plist(g@, pat@, parent as nat, ps.subrange(pi + 1, ps.len() as int), ids@.subrange(ii + 1, ids@.len() as int), r)
                                && (exists|t: int| 0 <= t < idx + 1 && subst_covers(g@, (#[trigger] firsts@[t])@, r))
                            implies #[trigger] some_covered(g@, out@, r) by {
                            let t = choose|t: int| 0 <= t < idx + 1 && subst_covers(g@, (#[trigger] firsts@[t])@, r);
                            if t == idx {
                                assert(some_covered(g@, subv, r));
                            } else {
                                assert(some_covered(g@, old_out, r));
                            }
                            lemma_covered_append(g@, old_out, subv, r);
                        }
                    }
                    idx = idx + 1;
                }
                proof {
                    assert forall|r: SubstView|
                        subst_covers(g@, s@, r) && subst_below(r, g@.len()) && #[trigger] plist(g@, pat@, parent as nat, rest_ps, rest_ids, r)
                        implies some_covered(g@, out@, r) by {
                        assert(rest_ids[0] == ids@[ii as int]);
                        assert(rest_ids.drop_first() =~= ids@.subrange(ii + 1, ids@.len() as int));
                        assert(pmatch(g@, pat@, q as nat, ids@[ii as int], r));
                        assert(some_covered(g@, firsts@, r));
                    }
                }
            }
        },
    }
    out
}

/// Wildcard completeness: matching `seq_kind(?0*, mid_kind, ?1*)` from an
/// empty substitution at a class holding `seq_kind(ids)`, whose `k`-th
/// child's class holds a `mid_kind` leaf, yields a substitution binding the
/// first wildcard to `ids[..k]` and the second to `ids[k+1..]`, class by class.
/// `out` is any result that meets the contract of `match_class` there.
pub proof fn lemma_wildcard_completeness(
    g: GraphView,
    seq_kind: Kind,
    mid_kind: Kind,
    c: usize,
    j: int,
    k: int,
    m: int,
    out: Seq<Subst>,
)
    requires
        g.wf(),
        c < g.len(),
        0 <= j < g.len(),
        g.uf[j] == g.uf[c as int],
        g.nodes[j].0 == seq_kind,
        0 <= k < g.nodes[j].1.len(),
        0 <= m < g.len(),
        g.uf[m] == g.uf[g.nodes[j].1[k] as int],
        g.nodes[m] == (mid_kind, Seq::<usize>::empty()),
        forall|t: int| 0 <= t < out.len() ==> pmatch(g, split_pattern(seq_kind, mid_kind), 3, c, (#[trigger] out[t])@),
        forall|r: SubstView|
            subst_covers(g, seq![None, None], r) && subst_below(r, g.len()) && #[trigger] pmatch(g, split_pattern(seq_kind, mid_kind), 3, c, r)
                ==> some_covered(g, out, r),
    ensures
        exists|t: int|
            0 <= t < out.len() && (#[trigger] out[t])@[0] is Some && out[t]@[1] is Some && canon_ids(g.uf, out[t]@[0]->0)
                == canon_ids(g.uf, g.nodes[j].1.subrange(0, k)) && canon_ids(g.uf, out[t]@[1]->0) == canon_ids(
                g.uf,
                g.nodes[j].1.subrange(k + 1, g.nodes[j].1.len() as int),
            ),
{
    let ids = g.nodes[j].1;
    let pre = ids.subrange(0, k);
    let post = ids.subrange(k + 1, ids.len() as int);
    let r: SubstView = seq![Some(pre), Some(post)];
    lemma_split_matches(g, seq_kind, mid_kind, c, j, k, m);
    assert(ids_below(ids, g.len()));
    assert forall|v: int| 0 <= v < r.len() && (#[trigger] r[v]) is Some implies ids_below(r[v]->0, g.len()) by {
        assert forall|t: int| 0 <= t < r[v]->0.len() implies (#[trigger] r[v]->0[t]) < g.len() by {
            if v == 0 {
                assert(pre[t] == ids[t]);
            } else {
                assert(post[t] == ids[t + k + 1]);
            }
        }
    }
    let empty: SubstView = seq![None, None];
    assert(subst_covers(g, empty, r));
    assert(some_covered(g, out, r));
    let t = choose|t: int| 0 <= t < out.len() && subst_covers(g, (#[trigger] out[t])@, r);
    let o = out[t]@;
    let pat = split_pattern(seq_kind, mid_kind);
    assert(pmatch(g, pat, 3, c, o));
    let j2 = choose|j2: int|
        0 <= j2 < g.len() && #[trigger] g.uf[j2] == g.uf[c as int] && g.nodes[j2].0 == seq_kind
            && plist(g, pat, 3, pat[3].1, g.nodes[j2].1, o);
    let ids2 = g.nodes[j2].1;
    let l012 = seq![0usize, 1usize, 2usize];
    let l12 = seq![1usize, 2usize];
    assert(pat[3].1 == l012);
    assert(l012.drop_first() =~= l12);
    assert(o[0] is Some);
    let m1 = choose|mm: int|
        0 <= mm <= ids2.len() && ids_below(o[0]->0, g.len()) && #[trigger] canon_ids(g.uf, ids2.subrange(0, mm))
            == canon_ids(g.uf, o[0]->0) && plist(g, pat, 3, l012.drop_first(), ids2.subrange(mm, ids2.len() as int), o);
    let rest = ids2.subrange(m1, ids2.len() as int);
    assert(plist(g, pat, 3, l12, rest, o));
    assert(l12.drop_first() =~= seq![2usize]);
    assert(plist(g, pat, 3, seq![2usize], rest.drop_first(), o));
    assert(o[1] is Some);
}

/// A match survives replacing its bindings by ones with the same classes.
pub proof fn lemma_pmatch_covered(g: GraphView, pat: Seq<crate::pattern::PatView>, p: nat, c: usize, s1: SubstView, s2: SubstView)
    requires
        g.wf(),
        subst_covers(g, s1, s2),
        subst_below(s2, g.len()),
        pmatch(g, pat, p, c, s1),
    ensures
        pmatch(g, pat, p, c, s2),
    decreases p, 1nat, 0nat,
{
    match pat[p as int].0 {
        PatKind::Var(v) => {
            let x = s1[v as int]->0;
            let y = s2[v as int]->0;
            assert(canon_ids(g.uf, x) == canon_ids(g.uf, y));
            assert(canon_ids(g.uf, x).len() == 1);
            assert(canon_ids(g.uf, y).len() == y.len());
            assert(canon_ids(g.uf, x)[0] == canon_ids(g.uf, y)[0]);
            assert(ids_below(y, g.len()));
        },
        PatKind::Rest(_) => {},
        PatKind::Node(k) => {
            let j = choose|j: int|
                0 <= j < g.len() && #[trigger] g.uf[j] == g.uf[c as int] && g.nodes[j].0 == k
                    && plist(g, pat, p, pat[p as int].1, g.nodes[j].1, s1);
            lemma_plist_covered(g, pat, p, pat[p as int].1, g.nodes[j].1, s1, s2);
        },
    }
}

/// The list form of `lemma_pmatch_covered`.
pub proof fn lemma_plist_covered(
    g: GraphView,
    pat: Seq<crate::pattern::PatView>,
    parent: nat,
    ps: Seq<usize>,
    ids: Seq<usize>,
    s1: SubstView,
    s2: SubstView,
)
    requires
        g.wf(),
        subst_covers(g, s1, s2),
        subst_below(s2, g.len()),
        plist(g, pat, parent, ps, ids, s1),
    ensures
        plist(g, pat, parent, ps, ids, s2),
    decreases parent, 0nat, ps.len(),
{
    if ps.len() > 0 {
        let q = ps[0];
        match pat[q as int].0 {
            PatKind::Rest(v) => {
                let r = s1[v as int]->0;
                let m = choose|m: int|
                    0 <= m <= ids.len() && ids_below(r, g.len()) && #[trigger] canon_ids(g.uf, ids.subrange(0, m))
                        == canon_ids(g.uf, r) && plist(g, pat, parent, ps.drop_first(), ids.subrange(m, ids.len() as int), s1);
                lemma_plist_covered(g, pat, parent, ps.drop_first(), ids.subrange(m, ids.len() as int), s1, s2);
                assert(ids_below(s2[v as int]->0, g.len()));
                assert(canon_ids(g.uf, ids.subrange(0, m)) == canon_ids(g.uf, s2[v as int]->0));
            },
            _ => {
                lemma_pmatch_covered(g, pat, q as nat, ids[0], s1, s2);
                lemma_plist_covered(g, pat, parent, ps.drop_first(), ids.drop_first(), s1, s2);
            },
        }
    }
}

proof fn lemma_canon_idem(g: GraphView, ids: Seq<usize>)
    requires
        g.wf(),
        ids_below(ids, g.len()),
    ensures
        canon_ids(g.uf, canon_ids(g.uf, ids)) == canon_ids(g.uf, ids),
{
    assert forall|k: int| 0 <= k < ids.len() implies canon_ids(g.uf, canon_ids(g.uf, ids))[k] == canon_ids(g.uf, ids)[k] by {
        assert(ids[k] < g.len());
    }
    assert(canon_ids(g.uf, canon_ids(g.uf, ids)) =~= canon_ids(g.uf, ids));
}

} // verus!
