//! Rule patterns and the relation "a pattern matches a class under a
//! substitution".
//!
//! A pattern is an arena of pattern nodes; a node's children are earlier
//! positions, and the last node is the root. A variable binds to one class;
//! a sequence wildcard, which stands only in a child list, binds to a
//! contiguous, possibly empty run of child classes. A substitution holds, for
//! each variable number, nothing yet or the bound run (a single class is a run
//! of length one).
use vstd::prelude::*;
use crate::term::Kind;
use crate::egraph::{GraphView, canon_ids, ids_below, refines, canon};

verus! {

/// What a pattern node is.
#[derive(Clone, Copy, Debug, PartialEq, Eq, Structural)]
pub enum PatKind {
    /// A variable that binds to one class.
    Var(usize),
    /// A sequence wildcard that binds to a run of child classes.
    Rest(usize),
    /// A node of this kind whose children match the listed sub-patterns.
    Node(Kind),
}

/// A pattern node as the proofs see it.
pub type PatView = (PatKind, Seq<usize>);

/// A substitution as the proofs see it.
pub type SubstView = Seq<Option<Seq<usize>>>;

/// A pattern node.
#[derive(Debug)]
pub struct PatNode {
    pub kind: PatKind,
    pub children: Vec<usize>,
}

impl View for PatNode {
    type V = PatView;

    open spec fn view(&self) -> PatView {
        (self.kind, self.children@)
    }
}

/// A pattern: nodes whose children are earlier positions; the last is the root.
pub struct Pattern {
    pub nodes: Vec<PatNode>,
}

impl View for Pattern {
    type V = Seq<PatView>;

    open spec fn view(&self) -> Seq<PatView> {
        self.nodes@.map_values(|n: PatNode| n@)
    }
}

/// Children come before their parent.
pub open spec fn pattern_wf(pat: Seq<PatView>) -> bool {
    &&& pat.len() > 0
    &&& forall|p: int, k: int|
        0 <= p < pat.len() && 0 <= k < pat[p].1.len() ==> (#[trigger] pat[p].1[k]) < p
}

/// Pattern node `p` has a shape the alphabet allows: a node whose children
/// include a wildcard is of a variadic operator, any other node has a child
/// count its kind allows, and the root is no wildcard.
pub open spec fn pattern_node_ok(arities: Seq<crate::term::Arity>, pat: Seq<PatView>, p: int) -> bool {
    match pat[p].0 {
        PatKind::Node(k) => if exists|q: int| 0 <= q < pat[p].1.len() && pat[pat[p].1[q] as int].0 is Rest {
            match k {
                Kind::Op(t) => t < arities.len() && arities[t as int] == crate::term::Arity::Variadic,
                _ => false,
            }
        } else {
            crate::term::shape_ok(arities, k, pat[p].1.len())
        },
        PatKind::Rest(_) => p != pat.len() - 1,
        PatKind::Var(_) => true,
    }
}

/// Why a pattern was refused.
#[derive(Clone, Copy, Debug, PartialEq, Eq, Structural)]
pub enum PatternError {
    /// The pattern has no nodes.
    Empty,
    /// The node at this position names a child that does not come before it.
    ChildOrder(usize),
    /// The node at this position has a shape the alphabet does not allow.
    Shape(usize),
    /// The right side names a variable or wildcard that the left side does
    /// not bind in the same role.
    Unbound,
}

/// Checks a pattern: well formed, and every node of an allowed shape.
pub fn check_pattern(alphabet: &crate::term::Alphabet, pat: &Pattern) -> (r: Result<(), PatternError>)
    ensures
        r is Ok <==> pattern_wf(pat@) && forall|p: int| 0 <= p < pat@.len() ==> #[trigger] pattern_node_ok(alphabet.arities@, pat@, p),
{
    let n = pat.nodes.len();
    if n == 0 {
        return Err(PatternError::Empty);
    }
    let mut p: usize = 0;
    while p < n
        invariant
            n == pat@.len(),
            n > 0,
            p <= n,
            forall|i: int, k: int| 0 <= i < p && 0 <= k < pat@[i].1.len() ==> (#[trigger] pat@[i].1[k]) < i,
            forall|i: int| 0 <= i < p ==> #[trigger] pattern_node_ok(alphabet.arities@, pat@, i),
        decreases n - p,
    {
        let node = &pat.nodes[p];
        assert(node@ == pat@[p as int]);
        let mut has_rest = false;
        let mut k: usize = 0;
        while k < node.children.len()
            invariant
                n == pat@.len(),
                p < n,
                node@ == pat@[p as int],
                k <= node@.1.len(),
                forall|q: int| 0 <= q < k ==> (#[trigger] node@.1[q]) < p,
                has_rest == exists|q: int| 0 <= q < k && pat@[node@.1[q] as int].0 is Rest,
            decreases node@.1.len() - k,
        {
            let q = node.children[k];
            if q >= p {
                return Err(PatternError::ChildOrder(p));
            }
            assert(pat.nodes@[q as int]@ == pat@[q as int]);
            match pat.nodes[q].kind {
                PatKind::Rest(_) => {
                    has_rest = true;
                },
                _ => {},
            }
            proof {
                if !has_rest {
                    assert forall|q2: int| 0 <= q2 < k + 1 implies !(pat@[node@.1[q2] as int].0 is Rest) by {
                        if q2 == k {
                        }
                    }
                }
            }
            k = k + 1;
        }
        assert(has_rest == exists|q: int| 0 <= q < pat@[p as int].1.len() && pat@[pat@[p as int].1[q] as int].0 is Rest);
        let ok = match node.kind {
            PatKind::Node(kind) => {
                if has_rest {
                    match kind {
                        Kind::Op(t) => (t as usize) < alphabet.arities.len() && match alphabet.arities[t as usize] {
                            crate::term::Arity::Variadic => true,
                            _ => false,
                        },
                        _ => false,
                    }
                } else {
                    alphabet.accepts(kind, node.children.len())
                }
            },
            PatKind::Rest(_) => p != n - 1,
            PatKind::Var(_) => true,
        };
        assert(ok == pattern_node_ok(alphabet.arities@, pat@, p as int));
        if !ok {
            return Err(PatternError::Shape(p));
        }
        p = p + 1;
    }
    Ok(())
}

/// Pattern node `p` matches class `c` of `g` under `s`.
pub open spec fn pmatch(g: GraphView, pat: Seq<PatView>, p: nat, c: usize, s: SubstView) -> bool
    decreases p, 1nat, 0nat,
{
    if p >= pat.len() {
        false
    } else {
        match pat[p as int].0 {
            PatKind::Var(v) => v < s.len() && match s[v as int] {
                Some(r) => r.len() == 1 && r[0] < g.len() && g.uf[r[0] as int] == g.uf[c as int],
                None => false,
            },
            PatKind::Rest(_) => false,
            PatKind::Node(k) => exists|j: int|
                0 <= j < g.len() && #[trigger] g.uf[j] == g.uf[c as int] && g.nodes[j].0 == k
                    && plist(g, pat, p, pat[p as int].1, g.nodes[j].1, s),
        }
    }
}

/// The sub-patterns `ps` of pattern node `parent` match the child list `ids`
/// under `s`, a wildcard taking a run of any length.
pub open spec fn plist(
    g: GraphView,
    pat: Seq<PatView>,
    parent: nat,
    ps: Seq<usize>,
    ids: Seq<usize>,
    s: SubstView,
) -> bool
    decreases parent, 0nat, ps.len(),
{
    if ps.len() == 0 {
        ids.len() == 0
    } else {
        let q = ps[0];
        if q >= parent || q >= pat.len() {
            false
        } else {
            match pat[q as int].0 {
                PatKind::Rest(v) => v < s.len() && match s[v as int] {
                    Some(r) => exists|m: int|
                        0 <= m <= ids.len() && ids_below(r, g.len()) && #[trigger] canon_ids(g.uf, ids.subrange(0, m))
                            == canon_ids(g.uf, r) && plist(g, pat, parent, ps.drop_first(), ids.subrange(m, ids.len() as int), s),
                    None => false,
                },
                _ => ids.len() > 0 && pmatch(g, pat, q as nat, ids[0], s) && plist(
                    g,
                    pat,
                    parent,
                    ps.drop_first(),
                    ids.drop_first(),
                    s,
                ),
            }
        }
    }
}

/// The pattern `seq_kind(?0*, mid_kind, ?1*)`: a run, one `mid_kind` leaf, a run.
pub open spec fn split_pattern(seq_kind: Kind, mid_kind: Kind) -> Seq<PatView> {
    seq![
        (PatKind::Rest(0), Seq::<usize>::empty()),
        (PatKind::Node(mid_kind), Seq::<usize>::empty()),
        (PatKind::Rest(1), Seq::<usize>::empty()),
        (PatKind::Node(seq_kind), seq![0usize, 1usize, 2usize]),
    ]
}

/// The pattern `seq_kind(?0*, ?1*)`: the two runs joined.
pub open spec fn joined_pattern(seq_kind: Kind) -> Seq<PatView> {
    seq![
        (PatKind::Rest(0), Seq::<usize>::empty()),
        (PatKind::Rest(1), Seq::<usize>::empty()),
        (PatKind::Node(seq_kind), seq![0usize, 1usize]),
    ]
}

/// Where class `c` holds a `seq_kind` node whose `k`-th child's class holds a
/// `mid_kind` leaf, binding the first wildcard to the `k` children before it
/// and the second to the children after it is a match of `split_pattern`.
pub proof fn lemma_split_matches(g: GraphView, seq_kind: Kind, mid_kind: Kind, c: usize, j: int, k: int, m: int)
    requires
        g.wf(),
        c < g.len(),
        0 <= j < g.len(),
        g.uf[j] == g.uf[c as int],
        g.nodes[j].0 == seq_kind,
        0 <= k < g.nodes[j].1.len(),
        0 <= m < g.len(),
        g.uf[m] == g.uf[g.nodes[j].1[k] as int],
        g.nodes[m] == (mid_kind, Seq::<usize>::empty()),
    ensures
        pmatch(
            g,
            split_pattern(seq_kind, mid_kind),
            3,
            c,
            seq![Some(g.nodes[j].1.subrange(0, k)), Some(g.nodes[j].1.subrange(k + 1, g.nodes[j].1.len() as int))],
        ),
{
    let pat = split_pattern(seq_kind, mid_kind);
    let ids = g.nodes[j].1;
    let n = ids.len() as int;
    let pre = ids.subrange(0, k);
    let post = ids.subrange(k + 1, n);
    let s: SubstView = seq![Some(pre), Some(post)];
    assert(ids_below(ids, g.len()));
    assert(ids_below(post, g.len())) by {
        assert forall|t: int| 0 <= t < post.len() implies (#[trigger] post[t]) < g.len() by {
            assert(post[t] == ids[t + k + 1]);
        }
    }
    assert(ids_below(pre, g.len())) by {
        assert forall|t: int| 0 <= t < pre.len() implies (#[trigger] pre[t]) < g.len() by {
            assert(pre[t] == ids[t]);
        }
    }
    assert(pat[3].1 == seq![0usize, 1usize, 2usize]);
    let l2 = seq![2usize];
    let l12 = seq![1usize, 2usize];
    let l012 = seq![0usize, 1usize, 2usize];
    assert(l012.drop_first() =~= l12);
    assert(l12.drop_first() =~= l2);
    assert(l2.drop_first() =~= Seq::<usize>::empty());
    assert(plist(g, pat, 3, l2, post, s)) by {
        assert(post.subrange(0, post.len() as int) =~= post);
        assert(post.subrange(post.len() as int, post.len() as int) =~= Seq::<usize>::empty());
        assert(plist(g, pat, 3, Seq::<usize>::empty(), Seq::<usize>::empty(), s));
        assert(canon_ids(g.uf, post.subrange(0, post.len() as int)) == canon_ids(g.uf, post));
    }
    let rest1 = ids.subrange(k, n);
    assert(rest1[0] == ids[k]);
    assert(rest1.drop_first() =~= post);
    assert(pmatch(g, pat, 1, ids[k], s)) by {
        assert(plist(g, pat, 1, pat[1].1, g.nodes[m].1, s));
        assert(g.uf[m] == g.uf[ids[k] as int]);
    }
    assert(plist(g, pat, 3, l12, rest1, s));
    assert(plist(g, pat, 3, l012, ids, s)) by {
        assert(ids.subrange(0, k) == pre);
        assert(ids.subrange(k, n) == rest1);
        assert(canon_ids(g.uf, ids.subrange(0, k)) == canon_ids(g.uf, pre));
    }
    assert(plist(g, pat, 3, pat[3].1, g.nodes[j].1, s));
}

/// A class matched by `joined_pattern` under runs `pre` and `post` holds a
/// `seq_kind` node whose children are, class by class, `pre` then `post`:
/// the removed element is gone and the order is kept.
pub proof fn lemma_joined_children(g: GraphView, seq_kind: Kind, c: usize, pre: Seq<usize>, post: Seq<usize>)
    requires
        g.wf(),
        c < g.len(),
        pmatch(g, joined_pattern(seq_kind), 2, c, seq![Some(pre), Some(post)]),
    ensures
        exists|j: int|
            0 <= j < g.len() && #[trigger] g.uf[j] == g.uf[c as int] && g.nodes[j].0 == seq_kind
                && canon_ids(g.uf, g.nodes[j].1) == canon_ids(g.uf, pre + post),
{
    let pat = joined_pattern(seq_kind);
    let s: SubstView = seq![Some(pre), Some(post)];
    let j = choose|j: int|
        0 <= j < g.len() && #[trigger] g.uf[j] == g.uf[c as int] && g.nodes[j].0 == seq_kind
            && plist(g, pat, 2, pat[2].1, g.nodes[j].1, s);
    let ids = g.nodes[j].1;
    let l01 = seq![0usize, 1usize];
    let l1 = seq![1usize];
    assert(pat[2].1 == l01);
    assert(l01.drop_first() =~= l1);
    assert(l1.drop_first() =~= Seq::<usize>::empty());
    let m1 = choose|m: int|
        0 <= m <= ids.len() && ids_below(pre, g.len()) && #[trigger] canon_ids(g.uf, ids.subrange(0, m))
            == canon_ids(g.uf, pre) && plist(g, pat, 2, l01.drop_first(), ids.subrange(m, ids.len() as int), s);
    let rest = ids.subrange(m1, ids.len() as int);
    let m2 = choose|m: int|
        0 <= m <= rest.len() && ids_below(post, g.len()) && #[trigger] canon_ids(g.uf, rest.subrange(0, m))
            == canon_ids(g.uf, post) && plist(g, pat, 2, l1.drop_first(), rest.subrange(m, rest.len() as int), s);
    assert(rest.subrange(m2, rest.len() as int).len() == 0);
    assert(rest.subrange(0, m2) =~= rest);
    assert(ids =~= ids.subrange(0, m1) + rest);
    assert(canon_ids(g.uf, ids) =~= canon_ids(g.uf, ids.subrange(0, m1)) + canon_ids(g.uf, rest));
    assert(canon_ids(g.uf, pre + post) =~= canon_ids(g.uf, pre) + canon_ids(g.uf, post));
}

/// A list match splits at any boundary between sub-patterns.
pub proof fn lemma_plist_split(
    g: GraphView,
    pat: Seq<PatView>,
    parent: nat,
    ps: Seq<usize>,
    ids: Seq<usize>,
    s: SubstView,
    i: int,
)
    requires
        plist(g, pat, parent, ps, ids, s),
        0 <= i <= ps.len(),
    ensures
        exists|a: int|
            0 <= a <= ids.len() && #[trigger] plist(g, pat, parent, ps.subrange(0, i), ids.subrange(0, a), s) && plist(
                g,
                pat,
                parent,
                ps.subrange(i, ps.len() as int),
                ids.subrange(a, ids.len() as int),
                s,
            ),
    decreases ps.len(),
{
    if i == 0 {
        assert(ps.subrange(0, 0).len() == 0);
        assert(ids.subrange(0, 0).len() == 0);
        assert(ps.subrange(0, ps.len() as int) =~= ps);
        assert(ids.subrange(0, ids.len() as int) =~= ids);
        assert(plist(g, pat, parent, ps.subrange(0, 0), ids.subrange(0, 0), s));
    } else {
        let q = ps[0];
        let pt = ps.drop_first();
        assert(ps.subrange(0, i).drop_first() =~= pt.subrange(0, i - 1));
        assert(ps.subrange(0, i)[0] == q);
        assert(ps.subrange(i, ps.len() as int) =~= pt.subrange(i - 1, pt.len() as int));
        match pat[q as int].0 {
            PatKind::Rest(v) => {
                let r = s[v as int]->0;
                let m = choose|m: int|
                    0 <= m <= ids.len() && ids_below(r, g.len()) && #[trigger] canon_ids(g.uf, ids.subrange(0, m))
                        == canon_ids(g.uf, r) && plist(g, pat, parent, ps.drop_first(), ids.subrange(m, ids.len() as int), s);
                let it = ids.subrange(m, ids.len() as int);
                lemma_plist_split(g, pat, parent, pt, it, s, i - 1);
                let a2 = choose|a: int|
                    0 <= a <= it.len() && #[trigger] plist(g, pat, parent, pt.subrange(0, i - 1), it.subrange(0, a), s) && plist(
                        g,
                        pat,
                        parent,
                        pt.subrange(i - 1, pt.len() as int),
                        it.subrange(a, it.len() as int),
                        s,
                    );
                let a = m + a2;
                let pre = ids.subrange(0, a);
                assert(pre.subrange(0, m) =~= ids.subrange(0, m));
                assert(pre.subrange(m, pre.len() as int) =~= it.subrange(0, a2));
                assert(ids.subrange(a, ids.len() as int) =~= it.subrange(a2, it.len() as int));
                assert(canon_ids(g.uf, pre.subrange(0, m)) == canon_ids(g.uf, r));
                assert(plist(g, pat, parent, ps.subrange(0, i), pre, s));
            },
            _ => {
                let it = ids.drop_first();
                lemma_plist_split(g, pat, parent, pt, it, s, i - 1);
                let a2 = choose|a: int|
                    0 <= a <= it.len() && #[trigger] plist(g, pat, parent, pt.subrange(0, i - 1), it.subrange(0, a), s) && plist(
                        g,
                        pat,
                        parent,
                        pt.subrange(i - 1, pt.len() as int),
                        it.subrange(a, it.len() as int),
                        s,
                    );
                let a = a2 + 1;
                let pre = ids.subrange(0, a);
                assert(pre[0] == ids[0]);
                assert(pre.drop_first() =~= it.subrange(0, a2));
                assert(ids.subrange(a, ids.len() as int) =~= it.subrange(a2, it.len() as int));
                assert(plist(g, pat, parent, ps.subrange(0, i), pre, s));
            },
        }
    }
}

/// A list match of a single sub-pattern: a wildcard takes the whole list,
/// any other sub-pattern one class.
pub proof fn lemma_plist_single(g: GraphView, pat: Seq<PatView>, parent: nat, q: usize, ids: Seq<usize>, s: SubstView)
    requires
        plist(g, pat, parent, seq![q], ids, s),
    ensures
        q < parent,
        q < pat.len(),
        match pat[q as int].0 {
            PatKind::Rest(v) => v < s.len() && s[v as int] is Some && ids_below(s[v as int]->0, g.len())
                && canon_ids(g.uf, ids) == canon_ids(g.uf, s[v as int]->0),
            _ => ids.len() == 1 && pmatch(g, pat, q as nat, ids[0], s),
        },
{
    let l = seq![q];
    assert(l[0] == q);
    assert(l.drop_first() =~= Seq::<usize>::empty());
    match pat[q as int].0 {
        PatKind::Rest(v) => {
            let r = s[v as int]->0;
            let m = choose|m: int|
                0 <= m <= ids.len() && ids_below(r, g.len()) && #[trigger] canon_ids(g.uf, ids.subrange(0, m))
                    == canon_ids(g.uf, r) && plist(g, pat, parent, l.drop_first(), ids.subrange(m, ids.len() as int), s);
            assert(ids.subrange(m, ids.len() as int).len() == 0);
            assert(ids.subrange(0, m) =~= ids);
        },
        _ => {
            assert(plist(g, pat, parent, l.drop_first(), ids.drop_first(), s));
            assert(plist(g, pat, parent, Seq::<usize>::empty(), ids.drop_first(), s));
            assert(ids.drop_first().len() == 0);
        },
    }
}

/// Every variable reachable from pattern node `p` is bound to one class, and
/// every wildcard reachable from it stands in a child list and is bound.
pub open spec fn bound_under(pat: Seq<PatView>, p: nat, s: SubstView) -> bool
    decreases p, 1nat,
{
    if p >= pat.len() {
        false
    } else {
        match pat[p as int].0 {
            PatKind::Var(v) => v < s.len() && s[v as int] is Some && s[v as int]->0.len() == 1,
            PatKind::Rest(_) => false,
            PatKind::Node(_) => forall|k: int|
                0 <= k < pat[p as int].1.len() ==> child_bound(pat, p, #[trigger] pat[p as int].1[k], s),
        }
    }
}

/// Child `q` of pattern node `p` can be built under `s`.
pub open spec fn child_bound(pat: Seq<PatView>, p: nat, q: usize, s: SubstView) -> bool
    decreases p, 0nat,
{
    q < p && q < pat.len() && match pat[q as int].0 {
        PatKind::Rest(v) => v < s.len() && s[v as int] is Some,
        _ => bound_under(pat, q as nat, s),
    }
}

/// How many nodes building pattern node `p` adds at most.
pub open spec fn tree_size(pat: Seq<PatView>, p: nat) -> nat
    decreases p, 1nat, 0nat,
{
    if p >= pat.len() {
        0
    } else {
        match pat[p as int].0 {
            PatKind::Node(_) => 1 + list_size(pat, p, pat[p as int].1),
            _ => 0,
        }
    }
}

/// How many nodes building the sub-patterns `ps` of node `parent` adds at most.
pub open spec fn list_size(pat: Seq<PatView>, parent: nat, ps: Seq<usize>) -> nat
    decreases parent, 0nat, ps.len(),
{
    if ps.len() == 0 {
        0
    } else {
        (if ps[0] < parent { tree_size(pat, ps[0] as nat) } else { 0 }) + list_size(pat, parent, ps.drop_first())
    }
}

/// A suffix of a child list adds no more than the whole list.
pub proof fn lemma_list_size_suffix(pat: Seq<PatView>, parent: nat, ps: Seq<usize>, i: int)
    requires
        0 <= i <= ps.len(),
    ensures
        list_size(pat, parent, ps.subrange(i, ps.len() as int)) <= list_size(pat, parent, ps),
    decreases i,
{
    if i > 0 {
        assert(ps.drop_first().subrange(i - 1, ps.drop_first().len() as int) =~= ps.subrange(i, ps.len() as int));
        lemma_list_size_suffix(pat, parent, ps.drop_first(), i - 1);
    } else {
        assert(ps.subrange(0, ps.len() as int) =~= ps);
    }
}

/// The subtree of pattern node `p` binds variable `v`: as a variable
/// (`rest` false) or as a wildcard in a child list (`rest` true).
pub open spec fn binds(pat: Seq<PatView>, p: nat, v: usize, rest: bool) -> bool
    decreases p, 1nat,
{
    if p >= pat.len() {
        false
    } else {
        match pat[p as int].0 {
            PatKind::Var(w) => !rest && w == v,
            PatKind::Rest(_) => false,
            PatKind::Node(_) => exists|k: int|
                0 <= k < pat[p as int].1.len() && child_binds(pat, p, #[trigger] pat[p as int].1[k], v, rest),
        }
    }
}

/// Child `q` of pattern node `p` binds `v`.
pub open spec fn child_binds(pat: Seq<PatView>, p: nat, q: usize, v: usize, rest: bool) -> bool
    decreases p, 0nat,
{
    q < p && q < pat.len() && match pat[q as int].0 {
        PatKind::Rest(w) => rest && w == v,
        _ => binds(pat, q as nat, v, rest),
    }
}

/// Every variable and wildcard that the subtree of `rhs` node `p` names is
/// bound, in the same role, by `lhs` from its node `lroot`.
pub open spec fn closed_under(rhs: Seq<PatView>, p: nat, lhs: Seq<PatView>, lroot: nat) -> bool
    decreases p, 1nat,
{
    if p >= rhs.len() {
        false
    } else {
        match rhs[p as int].0 {
            PatKind::Var(v) => binds(lhs, lroot, v, false),
            PatKind::Rest(_) => false,
            PatKind::Node(_) => forall|k: int|
                0 <= k < rhs[p as int].1.len() ==> child_closed(rhs, p, #[trigger] rhs[p as int].1[k], lhs, lroot),
        }
    }
}

/// Child `q` of `rhs` node `p` names only what `lhs` binds.
pub open spec fn child_closed(rhs: Seq<PatView>, p: nat, q: usize, lhs: Seq<PatView>, lroot: nat) -> bool
    decreases p, 0nat,
{
    q < p && q < rhs.len() && match rhs[q as int].0 {
        PatKind::Rest(v) => binds(lhs, lroot, v, true),
        _ => closed_under(rhs, q as nat, lhs, lroot),
    }
}

/// A match binds every variable its pattern binds.
pub proof fn lemma_pmatch_binds(g: GraphView, pat: Seq<PatView>, p: nat, c: usize, s: SubstView, v: usize, rest: bool)
    requires
        pmatch(g, pat, p, c, s),
        binds(pat, p, v, rest),
    ensures
        v < s.len(),
        s[v as int] is Some,
        !rest ==> s[v as int]->0.len() == 1,
    decreases p, 1nat, 0nat,
{
    match pat[p as int].0 {
        PatKind::Node(k) => {
            let j = choose|j: int|
                0 <= j < g.len() && #[trigger] g.uf[j] == g.uf[c as int] && g.nodes[j].0 == k
                    && plist(g, pat, p, pat[p as int].1, g.nodes[j].1, s);
            let kk = choose|kk: int| 0 <= kk < pat[p as int].1.len() && child_binds(pat, p, #[trigger] pat[p as int].1[kk], v, rest);
            lemma_plist_binds(g, pat, p, pat[p as int].1, g.nodes[j].1, s, v, rest, kk);
        },
        _ => {},
    }
}

/// The list form of `lemma_pmatch_binds`.
pub proof fn lemma_plist_binds(
    g: GraphView,
    pat: Seq<PatView>,
    parent: nat,
    ps: Seq<usize>,
    ids: Seq<usize>,
    s: SubstView,
    v: usize,
    rest: bool,
    k: int,
)
    requires
        plist(g, pat, parent, ps, ids, s),
        0 <= k < ps.len(),
        child_binds(pat, parent, ps[k], v, rest),
    ensures
        v < s.len(),
        s[v as int] is Some,
        !rest ==> s[v as int]->0.len() == 1,
    decreases parent, 0nat, ps.len(),
{
    let q = ps[0];
    match pat[q as int].0 {
        PatKind::Rest(w) => {
            if k > 0 {
                let m = choose|m: int|
                    0 <= m <= ids.len() && ids_below(s[w as int]->0, g.len()) && #[trigger] canon_ids(g.uf, ids.subrange(0, m))
                        == canon_ids(g.uf, s[w as int]->0) && plist(g, pat, parent, ps.drop_first(), ids.subrange(m, ids.len() as int), s);
                assert(ps.drop_first()[k - 1] == ps[k]);
                lemma_plist_binds(g, pat, parent, ps.drop_first(), ids.subrange(m, ids.len() as int), s, v, rest, k - 1);
            }
        },
        _ => {
            if k == 0 {
                lemma_pmatch_binds(g, pat, q as nat, ids[0], s, v, rest);
            } else {
                assert(ps.drop_first()[k - 1] == ps[k]);
                lemma_plist_binds(g, pat, parent, ps.drop_first(), ids.drop_first(), s, v, rest, k - 1);
            }
        },
    }
}

/// A right side whose names the left side binds can be built under any
/// match of the left side.
pub proof fn lemma_closed_bound(rhs: Seq<PatView>, p: nat, lhs: Seq<PatView>, lroot: nat, g: GraphView, c: usize, s: SubstView)
    requires
        closed_under(rhs, p, lhs, lroot),
        pmatch(g, lhs, lroot, c, s),
    ensures
        bound_under(rhs, p, s),
    decreases p,
{
    match rhs[p as int].0 {
        PatKind::Var(v) => {
            lemma_pmatch_binds(g, lhs, lroot, c, s, v, false);
        },
        PatKind::Rest(_) => {},
        PatKind::Node(_) => {
            assert forall|k: int| 0 <= k < rhs[p as int].1.len() implies child_bound(rhs, p, #[trigger] rhs[p as int].1[k], s) by {
                let q = rhs[p as int].1[k];
                assert(child_closed(rhs, p, q, lhs, lroot));
                match rhs[q as int].0 {
                    PatKind::Rest(v) => {
                        lemma_pmatch_binds(g, lhs, lroot, c, s, v, true);
                    },
                    _ => {
                        lemma_closed_bound(rhs, q as nat, lhs, lroot, g, c, s);
                    },
                }
            }
        },
    }
}

/// Whether the subtree of pattern node `p` binds `v` in the given role.
pub fn pattern_binds(pat: &Pattern, p: usize, v: usize, rest: bool) -> (r: bool)
    requires
        pattern_wf(pat@),
        p < pat@.len(),
    ensures
        r == binds(pat@, p as nat, v, rest),
    decreases p,
{
    assert(pat.nodes@[p as int]@ == pat@[p as int]);
    match pat.nodes[p].kind {
        PatKind::Var(w) => !rest && w == v,
        PatKind::Rest(_) => false,
        PatKind::Node(_) => {
            let n = pat.nodes[p].children.len();
            let mut k: usize = 0;
            while k < n
                invariant
                    pattern_wf(pat@),
                    p < pat@.len(),
                    pat@[p as int].0 is Node,
                    n == pat@[p as int].1.len(),
                    k <= n,
                    forall|k2: int| 0 <= k2 < k ==> !child_binds(pat@, p as nat, #[trigger] pat@[p as int].1[k2], v, rest),
                decreases n - k,
            {
                let q = pat.nodes[p].children[k];
                assert(q == pat@[p as int].1[k as int]);
                assert(q < p);
                assert(pat.nodes@[q as int]@ == pat@[q as int]);
                let hit = match pat.nodes[q].kind {
                    PatKind::Rest(w) => rest && w == v,
                    _ => pattern_binds(pat, q, v, rest),
                };
                if hit {
                    assert(child_binds(pat@, p as nat, pat@[p as int].1[k as int], v, rest));
                    return true;
                }
                k = k + 1;
            }
            false
        },
    }
}

/// Whether every variable and wildcard the subtree of `rhs` node `p` names is
/// bound, in the same role, by `lhs` from its root.
pub fn pattern_closed(rhs: &Pattern, p: usize, lhs: &Pattern) -> (r: bool)
    requires
        pattern_wf(rhs@),
        pattern_wf(lhs@),
        p < rhs@.len(),
    ensures
        r == closed_under(rhs@, p as nat, lhs@, (lhs@.len() - 1) as nat),
    decreases p,
{
    let lroot = lhs.nodes.len() - 1;
    assert(rhs.nodes@[p as int]@ == rhs@[p as int]);
    match rhs.nodes[p].kind {
        PatKind::Var(v) => pattern_binds(lhs, lroot, v, false),
        PatKind::Rest(_) => false,
        PatKind::Node(_) => {
            let n = rhs.nodes[p].children.len();
            let mut k: usize = 0;
            while k < n
                invariant
                    pattern_wf(rhs@),
                    pattern_wf(lhs@),
                    p < rhs@.len(),
                    lroot == lhs@.len() - 1,
                    rhs@[p as int].0 is Node,
                    n == rhs@[p as int].1.len(),
                    k <= n,
                    forall|k2: int| 0 <= k2 < k ==> child_closed(rhs@, p as nat, #[trigger] rhs@[p as int].1[k2], lhs@, lroot as nat),
                decreases n - k,
            {
                let q = rhs.nodes[p].children[k];
                assert(q == rhs@[p as int].1[k as int]);
                assert(q < p);
                assert(rhs.nodes@[q as int]@ == rhs@[q as int]);
                let ok = match rhs.nodes[q].kind {
                    PatKind::Rest(v) => pattern_binds(lhs, lroot, v, true),
                    _ => pattern_closed(rhs, q, lhs),
                };
                if !ok {
                    assert(!child_closed(rhs@, p as nat, rhs@[p as int].1[k as int], lhs@, lroot as nat));
                    return false;
                }
                k = k + 1;
            }
            true
        },
    }
}

/// `s2` keeps every binding of `s1`.
pub open spec fn subst_extends(s1: SubstView, s2: SubstView) -> bool {
    &&& s1.len() == s2.len()
    &&& forall|v: int| 0 <= v < s1.len() && (#[trigger] s1[v]) is Some ==> s2[v] == s1[v]
}

/// `g2` is `g1` grown by additions, unions or a rebuild: no node is lost, no
/// equality is lost, and each old node keeps its canonical form.
pub open spec fn graph_extends(g1: GraphView, g2: GraphView) -> bool {
    &&& g1.len() <= g2.len()
    &&& refines(g1.uf, g2.uf)
    &&& forall|i: int| 0 <= i < g1.len() ==> canon(g2.uf, #[trigger] g2.nodes[i]) == canon(g2.uf, g1.nodes[i])
}

/// Adding a node grows the graph.
pub proof fn lemma_add_extends(g: GraphView, n: crate::term::NodeView)
    requires
        g.wf(),
        ids_below(n.1, g.len()),
    ensures
        graph_extends(g, g.add(n).0),
{
    let g2 = g.add(n).0;
    assert forall|i: int| 0 <= i < g.len() implies canon(g2.uf, #[trigger] g2.nodes[i]) == canon(g2.uf, g.nodes[i]) by {
        assert(g2.nodes[i] == g.nodes[i]);
    }
}

/// Merging two classes grows the graph.
pub proof fn lemma_union_extends(g: GraphView, a: int, b: int)
    requires
        g.wf(),
        0 <= a < g.len(),
        0 <= b < g.len(),
    ensures
        graph_extends(g, g.union(a, b)),
{
}

/// Growth composes.
pub proof fn lemma_extends_trans(g1: GraphView, g2: GraphView, g3: GraphView)
    requires
        g1.wf(),
        g2.wf(),
        g3.wf(),
        graph_extends(g1, g2),
        graph_extends(g2, g3),
    ensures
        graph_extends(g1, g3),
{
    assert forall|i: int, j: int|
        0 <= i < g1.len() && 0 <= j < g1.len() && #[trigger] g1.uf[i] == #[trigger] g1.uf[j] implies g3.uf[i] == g3.uf[j] by {
        assert(g2.uf[i] == g2.uf[j]);
    }
    assert forall|i: int| 0 <= i < g1.len() implies canon(g3.uf, #[trigger] g3.nodes[i]) == canon(g3.uf, g1.nodes[i]) by {
        assert(canon(g3.uf, g3.nodes[i]) == canon(g3.uf, g2.nodes[i]));
        assert(canon(g2.uf, g2.nodes[i]) == canon(g2.uf, g1.nodes[i]));
        assert(ids_below(g2.nodes[i].1, g2.len()));
        assert(ids_below(g1.nodes[i].1, g1.len()));
        assert(g2.nodes[i].1.len() == canon(g2.uf, g2.nodes[i]).1.len());
        assert forall|k: int| 0 <= k < g2.nodes[i].1.len() implies g3.uf[#[trigger] g2.nodes[i].1[k] as int] == g3.uf[g1.nodes[i].1[k] as int] by {
            assert(canon(g2.uf, g2.nodes[i]).1[k] == canon(g2.uf, g1.nodes[i]).1[k]);
            assert(g2.nodes[i].1[k] < g2.len());
            assert(g1.nodes[i].1[k] < g1.len());
            assert(g2.uf[g2.nodes[i].1[k] as int] == g2.uf[g1.nodes[i].1[k] as int]);
        }
        assert(canon_ids(g3.uf, g2.nodes[i].1) =~= canon_ids(g3.uf, g1.nodes[i].1));
    }
}

proof fn lemma_canon_ids_extend(g1: GraphView, g2: GraphView, a: Seq<usize>, b: Seq<usize>)
    requires
        g1.wf(),
        g2.wf(),
        graph_extends(g1, g2),
        ids_below(a, g1.len()),
        ids_below(b, g1.len()),
        canon_ids(g1.uf, a) == canon_ids(g1.uf, b),
    ensures
        canon_ids(g2.uf, a) == canon_ids(g2.uf, b),
{
    assert(canon_ids(g1.uf, a).len() == a.len());
    assert(canon_ids(g1.uf, b).len() == b.len());
    assert forall|k: int| 0 <= k < a.len() implies g2.uf[#[trigger] a[k] as int] == g2.uf[b[k] as int] by {
        assert(canon_ids(g1.uf, a)[k] == canon_ids(g1.uf, b)[k]);
        assert(a[k] < g1.len());
        assert(b[k] < g1.len());
        assert(canon_ids(g1.uf, a)[k] == g1.uf[a[k] as int]);
        assert(canon_ids(g1.uf, b)[k] == g1.uf[b[k] as int]);
        assert(g1.uf[a[k] as int] == g1.uf[b[k] as int]);
    }
    assert(canon_ids(g2.uf, a) =~= canon_ids(g2.uf, b));
}

/// A match survives growth of the graph and of the substitution, and moves
/// to any class equal to the matched one.
pub proof fn lemma_pmatch_extends(
    g1: GraphView,
    g2: GraphView,
    pat: Seq<PatView>,
    p: nat,
    c: usize,
    c2: usize,
    s1: SubstView,
    s2: SubstView,
)
    requires
        g1.wf(),
        g2.wf(),
        graph_extends(g1, g2),
        subst_extends(s1, s2),
        c < g1.len(),
        c2 < g2.len(),
        g2.uf[c as int] == g2.uf[c2 as int],
        pmatch(g1, pat, p, c, s1),
    ensures
        pmatch(g2, pat, p, c2, s2),
    decreases p, 1nat, 0nat,
{
    match pat[p as int].0 {
        PatKind::Var(v) => {
            let r = s1[v as int]->0;
            assert(s2[v as int] == s1[v as int]);
            assert(g1.uf[r[0] as int] == g1.uf[c as int]);
        },
        PatKind::Rest(_) => {},
        PatKind::Node(k) => {
            let j = choose|j: int|
                0 <= j < g1.len() && #[trigger] g1.uf[j] == g1.uf[c as int] && g1.nodes[j].0 == k
                    && plist(g1, pat, p, pat[p as int].1, g1.nodes[j].1, s1);
            assert(g2.uf[j] == g2.uf[c as int]);
            assert(canon(g2.uf, g2.nodes[j]) == canon(g2.uf, g1.nodes[j]));
            assert(ids_below(g1.nodes[j].1, g1.len()));
            assert(ids_below(g2.nodes[j].1, g2.len()));
            lemma_plist_extends(g1, g2, pat, p, pat[p as int].1, g1.nodes[j].1, g2.nodes[j].1, s1, s2);
            assert(g2.uf[j] == g2.uf[c2 as int]);
        },
    }
}

/// The list form of `lemma_pmatch_extends`: the child list may be replaced by
/// one with the same canonical form in the grown graph.
pub proof fn lemma_plist_extends(
    g1: GraphView,
    g2: GraphView,
    pat: Seq<PatView>,
    parent: nat,
    ps: Seq<usize>,
    ids: Seq<usize>,
    ids2: Seq<usize>,
    s1: SubstView,
    s2: SubstView,
)
    requires
        g1.wf(),
        g2.wf(),
        graph_extends(g1, g2),
        subst_extends(s1, s2),
        ids_below(ids, g1.len()),
        ids_below(ids2, g2.len()),
        canon_ids(g2.uf, ids) == canon_ids(g2.uf, ids2),
        plist(g1, pat, parent, ps, ids, s1),
    ensures
        plist(g2, pat, parent, ps, ids2, s2),
    decreases parent, 0nat, ps.len(),
{
    assert(ids.len() == canon_ids(g2.uf, ids).len());
    assert(ids2.len() == canon_ids(g2.uf, ids2).len());
    if ps.len() > 0 {
        let q = ps[0];
        match pat[q as int].0 {
            PatKind::Rest(v) => {
                let r = s1[v as int]->0;
                assert(s2[v as int] == s1[v as int]);
                let m = choose|m: int|
                    0 <= m <= ids.len() && ids_below(r, g1.len()) && #[trigger] canon_ids(g1.uf, ids.subrange(0, m))
                        == canon_ids(g1.uf, r) && plist(g1, pat, parent, ps.drop_first(), ids.subrange(m, ids.len() as int), s1);
                assert(ids_below(ids.subrange(0, m), g1.len()));
                lemma_canon_ids_extend(g1, g2, ids.subrange(0, m), r);
                assert(canon_ids(g2.uf, ids.subrange(0, m)) =~= canon_ids(g2.uf, ids2.subrange(0, m))) by {
                    assert forall|k: int| 0 <= k < m implies canon_ids(g2.uf, ids.subrange(0, m))[k] == canon_ids(g2.uf, ids2.subrange(0, m))[k] by {
                        assert(canon_ids(g2.uf, ids)[k] == canon_ids(g2.uf, ids2)[k]);
                        assert(ids.subrange(0, m)[k] == ids[k]);
                        assert(ids2.subrange(0, m)[k] == ids2[k]);
                        assert(canon_ids(g2.uf, ids)[k] == g2.uf[ids[k] as int]);
                        assert(canon_ids(g2.uf, ids2)[k] == g2.uf[ids2[k] as int]);
                    }
                }
                assert(canon_ids(g2.uf, ids.subrange(m, ids.len() as int)) =~= canon_ids(g2.uf, ids2.subrange(m, ids2.len() as int))) by {
                    assert forall|k: int| 0 <= k < ids.len() - m implies canon_ids(g2.uf, ids.subrange(m, ids.len() as int))[k] == canon_ids(g2.uf, ids2.subrange(m, ids2.len() as int))[k] by {
                        assert(canon_ids(g2.uf, ids)[k + m] == canon_ids(g2.uf, ids2)[k + m]);
                        assert(ids.subrange(m, ids.len() as int)[k] == ids[k + m]);
                        assert(ids2.subrange(m, ids2.len() as int)[k] == ids2[k + m]);
                        assert(canon_ids(g2.uf, ids)[k + m] == g2.uf[ids[k + m] as int]);
                        assert(canon_ids(g2.uf, ids2)[k + m] == g2.uf[ids2[k + m] as int]);
                    }
                }
                assert(ids_below(r, g2.len())) by {
                    assert forall|k: int| 0 <= k < r.len() implies (#[trigger] r[k]) < g2.len() by {
                        assert(r[k] < g1.len());
                    }
                }
                lemma_plist_extends(g1, g2, pat, parent, ps.drop_first(), ids.subrange(m, ids.len() as int), ids2.subrange(m, ids2.len() as int), s1, s2);
                assert(ids2.subrange(0, m).len() == m);
                assert(canon_ids(g2.uf, ids2.subrange(0, m)) == canon_ids(g2.uf, r));
            },
            _ => {
                assert(canon_ids(g2.uf, ids)[0] == canon_ids(g2.uf, ids2)[0]);
                assert(canon_ids(g2.uf, ids)[0] == g2.uf[ids[0] as int]);
                assert(canon_ids(g2.uf, ids2)[0] == g2.uf[ids2[0] as int]);
                assert(ids[0] < g1.len());
                lemma_pmatch_extends(g1, g2, pat, q as nat, ids[0], ids2[0], s1, s2);
                assert(canon_ids(g2.uf, ids.drop_first()) =~= canon_ids(g2.uf, ids2.drop_first())) by {
                    assert forall|k: int| 0 <= k < ids.len() - 1 implies canon_ids(g2.uf, ids.drop_first())[k] == canon_ids(g2.uf, ids2.drop_first())[k] by {
                        assert(canon_ids(g2.uf, ids)[k + 1] == canon_ids(g2.uf, ids2)[k + 1]);
                        assert(ids.drop_first()[k] == ids[k + 1]);
                        assert(ids2.drop_first()[k] == ids2[k + 1]);
                        assert(canon_ids(g2.uf, ids)[k + 1] == g2.uf[ids[k + 1] as int]);
                        assert(canon_ids(g2.uf, ids2)[k + 1] == g2.uf[ids2[k + 1] as int]);
                    }
                }
                lemma_plist_extends(g1, g2, pat, parent, ps.drop_first(), ids.drop_first(), ids2.drop_first(), s1, s2);
            },
        }
    }
}

} // verus!
