//! The rule scheduler: rounds of "match every rule against every class, then
//! apply every match, then rebuild", until a round merges nothing or a budget
//! runs out.
//!
//! Matching runs against the graph as it stood at the start of the round, so
//! what one rule builds cannot change what another finds in the same round.
//! The order in which matches are applied does not change a fixpoint; when a
//! budget stops the loop early it can change which merges happened first.
use vstd::prelude::*;
use crate::egraph::{EGraph, GraphView, rebuilt};
use crate::pattern::{Pattern, PatView, pattern_wf, pmatch, graph_extends, lemma_pmatch_extends, lemma_union_extends, lemma_extends_trans};
use crate::matcher::{Subst, subst_below, subst_covers, some_covered, match_class, class_match_ok};
use crate::rewrite::{Rewrite, lemma_rebuilt_extends};
use crate::pattern::{bound_under, tree_size};

verus! {

/// One match: rule number, class, and the substitution found.
pub struct Found {
    pub rule: usize,
    pub class: usize,
    pub subst: Subst,
}

/// What a round did.
pub struct RoundReport {
    /// The matches whose right side was built and merged into their class.
    pub applied: Vec<Found>,
    /// For each applied match, whether its merge joined two distinct classes.
    pub merged: Vec<bool>,
    /// The matches whose right side could not be built.
    pub unbuilt: Vec<Found>,
    /// How many applied matches joined two distinct classes.
    pub unions: usize,
}

#[verifier::external_type_specification]
#[verifier::external_body]
pub struct ExInstant(std::time::Instant);

/// Relies on `Instant::now`: the current time. Nothing is promised of it.
#[verifier::external_body]
fn now() -> (r: std::time::Instant) {
    std::time::Instant::now()
}

/// Relies on `Instant::elapsed`: the time since `t`. Nothing is promised of it.
#[verifier::external_body]
fn elapsed_since(t: &std::time::Instant) -> (r: std::time::Duration) {
    t.elapsed()
}

/// Relies on `Duration::as_millis`: whole milliseconds. Nothing is promised of it.
#[verifier::external_body]
fn millis_of(d: &std::time::Duration) -> (r: u128) {
    d.as_millis()
}

/// Why the run stopped.
#[derive(Clone, Copy, Debug, PartialEq, Eq, Structural)]
pub enum StopReason {
    /// A round changed nothing: the graph is saturated under the rules.
    Saturated,
    /// The round budget was used up.
    IterLimit,
    /// The graph grew past the node budget.
    NodeLimit,
    /// The time budget was used up.
    TimeLimit,
}

/// The budgets checked at the top of every round.
#[derive(Clone, Copy, Debug)]
pub struct Limits {
    pub max_iters: usize,
    pub max_nodes: usize,
    pub max_millis: u64,
}

/// What a run did.
pub struct RunReport {
    pub iterations: usize,
    pub stop: StopReason,
}

/// `r` reports a merge of two distinct classes.
pub open spec fn merged_in(r: Option<(usize, bool)>) -> bool {
    match r {
        Some((_, m)) => m,
        None => false,
    }
}

/// How many flags are set.
pub open spec fn count_true(m: Seq<bool>) -> nat
    decreases m.len(),
{
    if m.len() == 0 {
        0
    } else {
        count_true(m.drop_last()) + if m.last() { 1nat } else { 0nat }
    }
}

proof fn lemma_count_true_bound(m: Seq<bool>)
    ensures
        count_true(m) <= m.len(),
    decreases m.len(),
{
    if m.len() > 0 {
        lemma_count_true_bound(m.drop_last());
    }
}

/// Each rule's right side names only variables and wildcards that its left
/// side binds, in the same role.
pub open spec fn rules_closed(rules: Seq<Rewrite>) -> bool {
    forall|i: int| 0 <= i < rules.len() ==> crate::pattern::closed_under(
        (#[trigger] rules[i]).rhs@,
        rules[i].rhs_root(),
        rules[i].lhs@,
        rules[i].lhs_root(),
    )
}

/// `g` has room to build any rule's right side once more.
pub open spec fn room(g: GraphView, rules: Seq<Rewrite>) -> bool {
    forall|i: int| 0 <= i < rules.len() ==> g.len() + tree_size((#[trigger] rules[i]).rhs@, rules[i].rhs_root()) <= usize::MAX
}

/// `f` is a match whose right side could not be built: something it names is
/// unbound, or a graph of `len` nodes has no room for it.
pub open spec fn unbuildable(rules: Seq<Rewrite>, f: Found, len: nat) -> bool {
    !(bound_under(rules[f.rule as int].rhs@, rules[f.rule as int].rhs_root(), f.subst@) && len + tree_size(
        rules[f.rule as int].rhs@,
        rules[f.rule as int].rhs_root(),
    ) <= usize::MAX)
}

/// What a round from `g0` to `g1` guarantees.
pub open spec fn round_ok(g0: GraphView, g1: GraphView, rules: Seq<Rewrite>, rep: RoundReport) -> bool {
    &&& g1.wf()
    &&& graph_extends(g0, g1)
    &&& g1.canonical()
    &&& g1.congruent()
    &&& forall|t: int| 0 <= t < rep.applied@.len() ==> {
        let f = #[trigger] rep.applied@[t];
        &&& found_ok(g0, rules, f)
        &&& pmatch(g1, rules[f.rule as int].rhs@, rules[f.rule as int].rhs_root(), f.class, f.subst@)
    }
    &&& forall|t: int| 0 <= t < rep.unbuilt@.len() ==> {
        let f = #[trigger] rep.unbuilt@[t];
        &&& found_ok(g0, rules, f)
        &&& unbuildable(rules, f, g1.len())
    }
    &&& forall|i: int, c: int, r: crate::pattern::SubstView|
        #[trigger] lhs_match(g0, rules, i, c, r) ==> found_covers(g0, rep.applied@, i, c, r)
            || found_covers(g0, rep.unbuilt@, i, c, r)
    &&& (rules_closed(rules) && room(g1, rules) ==> rep.unbuilt@.len() == 0)
    &&& rep.merged@.len() == rep.applied@.len()
    &&& rep.unions == count_true(rep.merged@)
    &&& round_fixpoint(g0, g1, rules, rep.unions, rep.unbuilt@.len())
}

/// Every rule is well formed.
pub open spec fn rules_wf(rules: Seq<Rewrite>) -> bool {
    forall|i: int| 0 <= i < rules.len() ==> (#[trigger] rules[i]).wf()
}

/// `f` is a match of rule `f.rule`'s left side in `g`.
pub open spec fn found_ok(g: GraphView, rules: Seq<Rewrite>, f: Found) -> bool {
    &&& f.rule < rules.len()
    &&& f.subst@.len() == rules[f.rule as int].n_vars
    &&& f.class < g.len()
    &&& subst_below(f.subst@, g.len())
    &&& pmatch(g, rules[f.rule as int].lhs@, rules[f.rule as int].lhs_root(), f.class, f.subst@)
}

/// Some match in `out` is of rule `i`, at the class of `c`, and is covered by `r`.
pub open spec fn found_covers(g: GraphView, out: Seq<Found>, i: int, c: int, r: crate::pattern::SubstView) -> bool {
    exists|t: int|
        0 <= t < out.len() && (#[trigger] out[t]).rule == i && g.uf[out[t].class as int] == g.uf[c]
            && subst_covers(g, out[t].subst@, r)
}

/// `r` is a match of rule `i`'s left side at class `c`.
pub open spec fn lhs_match(g: GraphView, rules: Seq<Rewrite>, i: int, c: int, r: crate::pattern::SubstView) -> bool {
    &&& 0 <= i < rules.len()
    &&& 0 <= c < g.len()
    &&& r.len() == rules[i].n_vars
    &&& subst_below(r, g.len())
    &&& pmatch(g, rules[i].lhs@, rules[i].lhs_root(), c as usize, r)
}

/// Every match of a rule's left side has that rule's right side in its class.
pub open spec fn saturated(g: GraphView, rules: Seq<Rewrite>) -> bool {
    forall|i: int, c: int, r: crate::pattern::SubstView|
        #[trigger] lhs_match(g, rules, i, c, r) ==> pmatch(g, rules[i].rhs@, rules[i].rhs_root(), c as usize, r)
}

/// What a round from `g0` to `g1` guarantees about saturation: a round on a
/// rebuilt graph that makes no union, builds every right side and adds no
/// node leaves the graph as it was and saturated; a round on a rebuilt,
/// saturated graph makes no union.
pub open spec fn round_fixpoint(g0: GraphView, g1: GraphView, rules: Seq<Rewrite>, unions: usize, unbuilt: nat) -> bool {
    &&& (unions == 0 && unbuilt == 0 && g1.len() == g0.len() && g0.canonical() && g0.congruent()
        ==> g1 == g0 && saturated(g0, rules))
    &&& (saturated(g0, rules) && g0.canonical() && g0.congruent() ==> unions == 0)
}

/// Saturation is a fixpoint: on a graph that a run reported saturated
/// (rebuilt, and holding every rule's right side wherever its left side
/// matches), one more round makes no new union.
pub proof fn lemma_round_after_saturation(
    g: GraphView,
    g2: GraphView,
    rules: Seq<Rewrite>,
    unions: usize,
    unbuilt: nat,
)
    requires
        g.canonical(),
        g.congruent(),
        saturated(g, rules),
        round_fixpoint(g, g2, rules, unions, unbuilt),
    ensures
        unions == 0,
{
}

impl EGraph {
    /// Every match of every rule's left side at every class, with nothing
    /// bound beforehand: each one found is a match, and every match is found
    /// (up to the classes of the bound ids).
    pub fn search(&self, rules: &Vec<Rewrite>) -> (out: Vec<Found>)
        requires
            self@.wf(),
            rules_wf(rules@),
        ensures
            forall|t: int| 0 <= t < out@.len() ==> found_ok(self@, rules@, #[trigger] out@[t]),
            forall|i: int, c: int, r: crate::pattern::SubstView|
                #[trigger] lhs_match(self@, rules@, i, c, r) ==> found_covers(self@, out@, i, c, r),
    {
        let mut out: Vec<Found> = Vec::new();
        let mut ri: usize = 0;
        while ri < rules.len()
            invariant
                self@.wf(),
                rules_wf(rules@),
                ri <= rules@.len(),
                forall|t: int| 0 <= t < out@.len() ==> found_ok(self@, rules@, #[trigger] out@[t]),
                forall|i: int, c: int, r: crate::pattern::SubstView|
                    #[trigger] lhs_match(self@, rules@, i, c, r) && i < ri ==> found_covers(self@, out@, i, c, r),
            decreases rules@.len() - ri,
        {
            let rule = &rules[ri];
            assert(rules@[ri as int].wf());
            let root = rule.lhs.nodes.len() - 1;
            let n = self.uf.len();
            let mut c: usize = 0;
            while c < n
                invariant
                    self@.wf(),
                    rules_wf(rules@),
                    ri < rules@.len(),
                    *rule == rules@[ri as int],
                    rule.wf(),
                    root == rule.lhs_root(),
                    n == self@.len(),
                    c <= n,
                    forall|t: int| 0 <= t < out@.len() ==> found_ok(self@, rules@, #[trigger] out@[t]),
                    forall|i: int, c2: int, r: crate::pattern::SubstView|
                        #[trigger] lhs_match(self@, rules@, i, c2, r) && (i < ri || (i == ri && self@.uf[c2] < c))
                            ==> found_covers(self@, out@, i, c2, r),
                decreases n - c,
            {
                let ghost before = out@;
                if self.find(c) == c {
                    let empty = Subst::empty(rule.n_vars);
                    let mut ms = match_class(self, &rule.lhs, root, c, &empty);
                    let ghost ms0 = ms@;
                    while ms.len() > 0
                        invariant
                            self@.wf(),
                            rules_wf(rules@),
                            ri < rules@.len(),
                            *rule == rules@[ri as int],
                            root == rule.lhs_root(),
                            c < self@.len(),
                            self@.uf[c as int] == c,
                            empty@.len() == rule.n_vars,
                            forall|v: int| 0 <= v < empty@.len() ==> (#[trigger] empty@[v]) is None,
                            forall|t: int| 0 <= t < ms@.len() ==> class_match_ok(self@, rule.lhs@, root as nat, c, empty@, #[trigger] ms@[t]@),
                            forall|t: int| 0 <= t < out@.len() ==> found_ok(self@, rules@, #[trigger] out@[t]),
                            forall|t: int| 0 <= t < before.len() ==> #[trigger] out@[t] == before[t],
                            before.len() <= out@.len(),
                            forall|r: crate::pattern::SubstView|
                                #[trigger] some_covered(self@, ms0, r) ==> some_covered(self@, ms@, r) || found_covers(self@, out@, ri as int, c as int, r),
                        decreases ms@.len(),
                    {
                        let ghost ms_before = ms@;
                        let ghost out_before = out@;
                        let s = ms.pop().unwrap();
                        assert(class_match_ok(self@, rule.lhs@, root as nat, c, empty@, s@));
                        out.push(Found { rule: ri, class: c, subst: s });
                        proof {
                            assert forall|r: crate::pattern::SubstView|
                                #[trigger] some_covered(self@, ms0, r) implies some_covered(self@, ms@, r) || found_covers(self@, out@, ri as int, c as int, r) by {
                                if some_covered(self@, ms_before, r) {
                                    let t = choose|t: int| 0 <= t < ms_before.len() && subst_covers(self@, (#[trigger] ms_before[t])@, r);
                                    if t == ms@.len() {
                                        assert(out@[out@.len() - 1].subst == s);
                                        assert(found_covers(self@, out@, ri as int, c as int, r));
                                    } else {
                                        assert(ms@[t] == ms_before[t]);
                                    }
                                } else {
                                    let t = choose|t: int|
                                        0 <= t < out_before.len() && (#[trigger] out_before[t]).rule == ri && self@.uf[out_before[t].class as int] == self@.uf[c as int]
                                            && subst_covers(self@, out_before[t].subst@, r);
                                    assert(out@[t] == out_before[t]);
                                }
                            }
                        }
                    }
                    proof {
                        assert forall|i: int, c2: int, r: crate::pattern::SubstView|
                            #[trigger] lhs_match(self@, rules@, i, c2, r) && (i < ri || (i == ri && self@.uf[c2] < c + 1))
                            implies found_covers(self@, out@, i, c2, r) by {
                            if i == ri && self@.uf[c2] == c {
                                assert(subst_covers(self@, empty@, r));
                                crate::matcher::lemma_graph_extends_refl(self@);
                                lemma_pmatch_extends(self@, self@, rule.lhs@, root as nat, c2 as usize, c, r, r);
                                assert(some_covered(self@, ms0, r));
                            } else {
                                assert(found_covers(self@, before, i, c2, r));
                                let t = choose|t: int|
                                    0 <= t < before.len() && (#[trigger] before[t]).rule == i && self@.uf[before[t].class as int] == self@.uf[c2]
                                        && subst_covers(self@, before[t].subst@, r);
                                assert(out@[t] == before[t]);
                            }
                        }
                    }
                } else {
                    proof {
                        assert forall|i: int, c2: int, r: crate::pattern::SubstView|
                            #[trigger] lhs_match(self@, rules@, i, c2, r) && (i < ri || (i == ri && self@.uf[c2] < c + 1))
                            implies found_covers(self@, out@, i, c2, r) by {
                            if i == ri && self@.uf[c2] == c {
                                assert(self@.uf[self@.uf[c2] as int] == self@.uf[c2]);
                            }
                        }
                    }
                }
                c = c + 1;
            }
            proof {
                assert forall|i: int, c2: int, r: crate::pattern::SubstView|
                    #[trigger] lhs_match(self@, rules@, i, c2, r) && i < ri + 1 implies found_covers(self@, out@, i, c2, r) by {
                    assert(self@.uf[c2] < n);
                }
            }
            ri = ri + 1;
        }
        out
    }

    /// Builds the right side of `rule` under `s` and merges it into class `c`.
    /// Returns `None` when the right side cannot be built, else whether two
    /// distinct classes were merged.
    pub fn apply(&mut self, rule: &Rewrite, c: usize, s: &Subst) -> (r: Option<(usize, bool)>)
        requires
            old(self)@.wf(),
            rule.wf(),
            c < old(self)@.len(),
            subst_below(s@, old(self)@.len()),
        ensures
            final(self)@.wf(),
            graph_extends(old(self)@, final(self)@),
            r is Some ==> pmatch(final(self)@, rule.rhs@, rule.rhs_root(), c, s@),
            r is Some ==> {
                let (x, merged) = r->0;
                &&& x < final(self)@.len()
                &&& final(self)@.uf[x as int] == final(self)@.uf[c as int]
                &&& pmatch(final(self)@, rule.rhs@, rule.rhs_root(), x, s@)
                &&& merged == (x >= old(self)@.len() || old(self)@.uf[x as int] != old(self)@.uf[c as int])
            },
            bound_under(rule.rhs@, rule.rhs_root(), s@) && old(self)@.len() + tree_size(rule.rhs@, rule.rhs_root()) <= usize::MAX
                ==> r is Some,
            final(self)@.len() == old(self)@.len() && !merged_in(r) ==> final(self)@ == old(self)@,
            old(self)@.canonical() && old(self)@.congruent() && pmatch(old(self)@, rule.rhs@, rule.rhs_root(), c, s@)
                ==> final(self)@ == old(self)@ && !merged_in(r),
    {
        let ghost g0 = self@;
        let root = rule.rhs.nodes.len() - 1;
        match self.instantiate(&rule.rhs, root, s) {
            None => {
                proof {
                    assert(old(self)@.canonical() && old(self)@.congruent() && pmatch(old(self)@, rule.rhs@, rule.rhs_root(), c, s@)
                        ==> self@ == old(self)@);
                }
                None
            },
            Some(x) => {
                let ghost g1 = self@;
                let merged = self.find(x) != self.find(c);
                proof {
                    assert(old(self)@.canonical() && old(self)@.congruent() && pmatch(old(self)@, rule.rhs@, rule.rhs_root(), c, s@)
                        ==> g1 == old(self)@ && !merged);
                }
                self.union(c, x);
                proof {
                    let g2 = self@;
                    lemma_union_extends(g1, c as int, x as int);
                    lemma_extends_trans(g0, g1, g2);
                    crate::rewrite::lemma_subst_below_grow(s@, g0.len(), g1.len());
                    lemma_pmatch_extends(g1, g2, rule.rhs@, root as nat, x, c, s@, s@);
                    lemma_pmatch_extends(g1, g2, rule.rhs@, root as nat, x, x, s@, s@);
                    assert(g1.uf[c as int] == g0.uf[c as int]);
                    assert(g0.uf[c as int] < g0.len());
                    if x >= g0.len() {
                        assert(g1.uf[x as int] == x);
                    } else {
                        assert(g1.uf[x as int] == g0.uf[x as int]);
                    }
                }
                Some((x, merged))
            },
        }
    }

    /// One round: search, apply every match, rebuild.
    pub fn round(&mut self, rules: &Vec<Rewrite>) -> (rep: RoundReport)
        requires
            old(self)@.wf(),
            rules_wf(rules@),
        ensures
            round_ok(old(self)@, final(self)@, rules@, rep),
    {
        let ghost g0 = self@;
        let mut found = self.search(rules);
        let n_found_exec = found.len();
        let ghost n_found = found@.len();
        let mut applied: Vec<Found> = Vec::new();
        let mut merged_flags: Vec<bool> = Vec::new();
        let mut unbuilt: Vec<Found> = Vec::new();
        let mut unions: usize = 0;
        proof {
            crate::matcher::lemma_graph_extends_refl(g0);
        }
        while found.len() > 0
            invariant
                g0 == old(self)@,
                g0.wf(),
                self@.wf(),
                rules_wf(rules@),
                graph_extends(g0, self@),
                forall|t: int| 0 <= t < found@.len() ==> found_ok(g0, rules@, #[trigger] found@[t]),
                forall|i: int, c: int, r: crate::pattern::SubstView|
                    #[trigger] lhs_match(g0, rules@, i, c, r) ==> found_covers(g0, found@, i, c, r) || found_covers(g0, applied@, i, c, r)
                        || found_covers(g0, unbuilt@, i, c, r),
                forall|t: int| 0 <= t < unbuilt@.len() ==> {
                    let f = #[trigger] unbuilt@[t];
                    &&& found_ok(g0, rules@, f)
                    &&& unbuildable(rules@, f, self@.len())
                },
                found@.len() + applied@.len() + unbuilt@.len() == n_found,
                n_found <= usize::MAX,
                merged_flags@.len() == applied@.len(),
                unions == count_true(merged_flags@),
                unions == 0 && self@.len() == g0.len() ==> self@ == g0,
                saturated(g0, rules@) && g0.canonical() && g0.congruent() ==> self@ == g0 && unions == 0,
                forall|t: int| 0 <= t < applied@.len() ==> {
                    let f = #[trigger] applied@[t];
                    &&& found_ok(g0, rules@, f)
                    &&& pmatch(self@, rules@[f.rule as int].rhs@, rules@[f.rule as int].rhs_root(), f.class, f.subst@)
                },
            decreases found@.len(),
        {
            let ghost found_before = found@;
            let ghost applied_before = applied@;
            let ghost unbuilt_before = unbuilt@;
            let f = found.pop().unwrap();
            assert(found_ok(g0, rules@, f));
            let ghost g1 = self@;
            assert(rules@[f.rule as int].wf());
            proof {
                crate::rewrite::lemma_subst_below_grow(f.subst@, g0.len(), g1.len());
            }
            proof {
                if saturated(g0, rules@) && g0.canonical() && g0.congruent() {
                    assert(lhs_match(g0, rules@, f.rule as int, f.class as int, f.subst@));
                }
            }
            let res = self.apply(&rules[f.rule], f.class, &f.subst);
            proof {
                lemma_extends_trans(g0, g1, self@);
                assert forall|t: int| 0 <= t < applied@.len() implies {
                    let h = #[trigger] applied@[t];
                    pmatch(self@, rules@[h.rule as int].rhs@, rules@[h.rule as int].rhs_root(), h.class, h.subst@)
                } by {
                    let h = applied@[t];
                    assert(found_ok(g0, rules@, h));
                    assert(pmatch(g1, rules@[h.rule as int].rhs@, rules@[h.rule as int].rhs_root(), h.class, h.subst@));
                    lemma_pmatch_extends(g1, self@, rules@[h.rule as int].rhs@, rules@[h.rule as int].rhs_root(), h.class, h.class, h.subst@, h.subst@);
                }
            }
            let ghost mflags_before = merged_flags@;
            match res {
                Some((_, merged)) => {
                    proof {
                        lemma_count_true_bound(merged_flags@);
                    }
                    if merged {
                        unions = unions + 1;
                    }
                    merged_flags.push(merged);
                    applied.push(f);
                    proof {
                        assert(merged_flags@.drop_last() =~= mflags_before);
                    }
                },
                None => {
                    unbuilt.push(f);
                },
            }
            proof {
                assert forall|t: int| 0 <= t < unbuilt@.len() implies {
                    let h = #[trigger] unbuilt@[t];
                    &&& found_ok(g0, rules@, h)
                    &&& unbuildable(rules@, h, self@.len())
                } by {
                    if t < unbuilt_before.len() {
                        assert(unbuilt@[t] == unbuilt_before[t]);
                    }
                }
                assert forall|i: int, c: int, r: crate::pattern::SubstView|
                    #[trigger] lhs_match(g0, rules@, i, c, r) implies found_covers(g0, found@, i, c, r) || found_covers(g0, applied@, i, c, r)
                        || found_covers(g0, unbuilt@, i, c, r) by {
                    if found_covers(g0, found_before, i, c, r) {
                        let t = choose|t: int|
                            0 <= t < found_before.len() && (#[trigger] found_before[t]).rule == i && g0.uf[found_before[t].class as int] == g0.uf[c]
                                && subst_covers(g0, found_before[t].subst@, r);
                        if t == found@.len() {
                            if res is Some {
                                assert(applied@[applied@.len() - 1] == found_before[t]);
                            } else {
                                assert(unbuilt@[unbuilt@.len() - 1] == found_before[t]);
                            }
                        } else {
                            assert(found@[t] == found_before[t]);
                        }
                    } else if found_covers(g0, applied_before, i, c, r) {
                        let t = choose|t: int|
                            0 <= t < applied_before.len() && (#[trigger] applied_before[t]).rule == i && g0.uf[applied_before[t].class as int] == g0.uf[c]
                                && subst_covers(g0, applied_before[t].subst@, r);
                        assert(applied@[t] == applied_before[t]);
                    } else {
                        let t = choose|t: int|
                            0 <= t < unbuilt_before.len() && (#[trigger] unbuilt_before[t]).rule == i && g0.uf[unbuilt_before[t].class as int] == g0.uf[c]
                                && subst_covers(g0, unbuilt_before[t].subst@, r);
                        assert(unbuilt@[t] == unbuilt_before[t]);
                    }
                }
            }
        }
        proof {
            assert forall|i: int, c: int, r: crate::pattern::SubstView|
                #[trigger] lhs_match(g0, rules@, i, c, r) implies found_covers(g0, applied@, i, c, r) || found_covers(g0, unbuilt@, i, c, r) by {
                assert(!found_covers(g0, found@, i, c, r));
            }
        }
        let ghost g1 = self@;
        self.rebuild();
        let n_now = self.uf.len();
        proof {
            lemma_rebuilt_extends(g1, self@);
            lemma_extends_trans(g0, g1, self@);
            if rules_closed(rules@) && room(self@, rules@) && unbuilt@.len() > 0 {
                let f = unbuilt@[0];
                assert(found_ok(g0, rules@, f));
                assert(unbuildable(rules@, f, g1.len()));
                let fr = rules@[f.rule as int];
                assert(crate::pattern::closed_under(fr.rhs@, fr.rhs_root(), fr.lhs@, fr.lhs_root()));
                crate::pattern::lemma_closed_bound(fr.rhs@, fr.rhs_root(), fr.lhs@, fr.lhs_root(), g0, f.class, f.subst@);
                assert(self@.len() + tree_size(fr.rhs@, fr.rhs_root()) <= usize::MAX);
                assert(false);
            }
            if unions == 0 && unbuilt@.len() == 0 && self@.len() == g0.len() && g0.canonical() && g0.congruent() {
                assert(g1 == g0);
                assert forall|i: int, c: int, r: crate::pattern::SubstView|
                    #[trigger] lhs_match(g0, rules@, i, c, r) implies pmatch(g0, rules@[i].rhs@, rules@[i].rhs_root(), c as usize, r) by {
                    assert(!found_covers(g0, unbuilt@, i, c, r));
                    assert(found_covers(g0, applied@, i, c, r));
                    let t = choose|t: int|
                        0 <= t < applied@.len() && (#[trigger] applied@[t]).rule == i && g0.uf[applied@[t].class as int] == g0.uf[c]
                            && subst_covers(g0, applied@[t].subst@, r);
                    let f = applied@[t];
                    assert(pmatch(g0, rules@[i].rhs@, rules@[i].rhs_root(), f.class, f.subst@));
                    crate::matcher::lemma_pmatch_covered(g0, rules@[i].rhs@, rules@[i].rhs_root(), f.class, f.subst@, r);
                    crate::matcher::lemma_graph_extends_refl(g0);
                    assert(0 <= c < g0.len());
                    assert(g0.len() == n_now);
                    assert((c as usize) as int == c);
                    lemma_pmatch_extends(g0, g0, rules@[i].rhs@, rules@[i].rhs_root(), f.class, c as usize, r, r);
                }
            }
            assert forall|t: int| 0 <= t < applied@.len() implies {
                let h = #[trigger] applied@[t];
                pmatch(self@, rules@[h.rule as int].rhs@, rules@[h.rule as int].rhs_root(), h.class, h.subst@)
            } by {
                let h = applied@[t];
                assert(found_ok(g0, rules@, h));
                lemma_pmatch_extends(g1, self@, rules@[h.rule as int].rhs@, rules@[h.rule as int].rhs_root(), h.class, h.class, h.subst@, h.subst@);
            }
        }
        RoundReport { applied, merged: merged_flags, unbuilt, unions }
    }

    /// One step of a run, given the milliseconds spent so far: stop on the
    /// node budget if the graph is past it, else stop on the time budget if
    /// it is used up (the graph unchanged), else run one round and report
    /// saturation when that round made no union, built every match and added
    /// no node.
    pub fn step(&mut self, rules: &Vec<Rewrite>, limits: Limits, elapsed_ms: u128) -> (r: Option<StopReason>)
        requires
            old(self)@.wf(),
            old(self)@.canonical(),
            old(self)@.congruent(),
            rules_wf(rules@),
        ensures
            final(self)@.wf(),
            final(self)@.canonical(),
            final(self)@.congruent(),
            graph_extends(old(self)@, final(self)@),
            old(self)@.len() > limits.max_nodes ==> r == Some(StopReason::NodeLimit) && final(self)@ == old(self)@,
            old(self)@.len() <= limits.max_nodes && elapsed_ms >= limits.max_millis as u128
                ==> r == Some(StopReason::TimeLimit) && final(self)@ == old(self)@,
            old(self)@.len() <= limits.max_nodes && elapsed_ms < limits.max_millis as u128 ==> {
                &&& r is None || r == Some(StopReason::Saturated)
                &&& exists|rep: RoundReport|
                    round_ok(old(self)@, final(self)@, rules@, rep) && (r == Some(StopReason::Saturated) <==> (rep.unions == 0
                        && rep.unbuilt@.len() == 0 && final(self)@.len() == old(self)@.len()))
            },
            r == Some(StopReason::Saturated) ==> saturated(final(self)@, rules@),
    {
        if self.uf.len() > limits.max_nodes {
            proof {
                crate::matcher::lemma_graph_extends_refl(self@);
            }
            return Some(StopReason::NodeLimit);
        }
        if elapsed_ms >= limits.max_millis as u128 {
            proof {
                crate::matcher::lemma_graph_extends_refl(self@);
            }
            return Some(StopReason::TimeLimit);
        }
        let before = self.uf.len();
        let rep = self.round(rules);
        if rep.unions == 0 && rep.unbuilt.len() == 0 && self.uf.len() == before {
            Some(StopReason::Saturated)
        } else {
            None
        }
    }

    /// Runs rounds until one changes nothing (no new union, no new node, every
    /// right side built: the graph is saturated) or a budget runs out. A
    /// budget that runs out is no error: the graph is left as far as it got,
    /// rebuilt and usable for extraction. The budgets are checked before each
    /// round, so the time budget can be overrun by one round.
    pub fn run(&mut self, rules: &Vec<Rewrite>, limits: Limits) -> (rep: RunReport)
        requires
            old(self)@.wf(),
            rules_wf(rules@),
        ensures
            final(self)@.wf(),
            graph_extends(old(self)@, final(self)@),
            final(self)@.canonical(),
            final(self)@.congruent(),
            rep.iterations <= limits.max_iters,
            limits.max_iters == 0 ==> rep.stop == StopReason::IterLimit,
            limits.max_iters > 0 && old(self)@.len() > limits.max_nodes ==> rep.stop == StopReason::NodeLimit
                && rep.iterations == 0,
            rep.stop == StopReason::IterLimit ==> rep.iterations == limits.max_iters,
            rep.stop == StopReason::NodeLimit ==> final(self)@.len() > limits.max_nodes,
            rep.stop == StopReason::TimeLimit ==> rep.iterations < limits.max_iters,
            rep.stop == StopReason::Saturated ==> saturated(final(self)@, rules@),
    {
        let ghost g0 = self@;
        let start = now();
        self.rebuild();
        proof {
            lemma_rebuilt_extends(g0, self@);
        }
        let mut it: usize = 0;
        while it < limits.max_iters
            invariant
                g0 == old(self)@,
                g0.wf(),
                self@.wf(),
                rules_wf(rules@),
                graph_extends(g0, self@),
                self@.canonical(),
                self@.congruent(),
                it <= limits.max_iters,
                it == 0 ==> self@.len() == g0.len(),
                g0.len() > limits.max_nodes ==> it == 0,
            decreases limits.max_iters - it,
        {
            let ms = millis_of(&elapsed_since(&start));
            let ghost g1 = self@;
            let stop = self.step(rules, limits, ms);
            proof {
                lemma_extends_trans(g0, g1, self@);
            }
            match stop {
                Some(StopReason::Saturated) => {
                    return RunReport { iterations: it + 1, stop: StopReason::Saturated };
                },
                Some(x) => {
                    return RunReport { iterations: it, stop: x };
                },
                None => {
                    it = it + 1;
                },
            }
        }
        RunReport { iterations: it, stop: StopReason::IterLimit }
    }
}

} // verus!
