//! Terms: operator tags of an alphabet, leaf payloads and arena-indexed nodes.
use vstd::prelude::*;

verus! {

/// What a node is: an operator of an alphabet, or a leaf payload.
#[derive(Clone, Copy, Debug, PartialEq, Eq, Structural)]
pub enum Kind {
    /// An operator, by its index in the alphabet.
    Op(u32),
    /// An interned symbolic name (a register, a label).
    Sym(u32),
    /// A signed integer literal.
    Num(i64),
}

/// How many children an operator takes.
#[derive(Clone, Copy, Debug, PartialEq, Eq, Structural)]
pub enum Arity {
    Fixed(usize),
    Variadic,
}

/// A node as the proofs see it: its kind and its ordered child references.
pub type NodeView = (Kind, Seq<usize>);

/// A node: a kind and ordered references to children (class ids in an
/// e-graph, earlier positions in a term).
#[derive(Debug)]
pub struct ENode {
    pub kind: Kind,
    pub children: Vec<usize>,
}

impl View for ENode {
    type V = NodeView;

    open spec fn view(&self) -> NodeView {
        (self.kind, self.children@)
    }
}

impl ENode {
    /// A leaf or operator node with no children.
    pub fn leaf(kind: Kind) -> (r: ENode)
        ensures
            r@ == (kind, Seq::<usize>::empty()),
    {
        ENode { kind, children: Vec::new() }
    }

    /// A node with the given kind and children.
    pub fn new(kind: Kind, children: Vec<usize>) -> (r: ENode)
        ensures
            r@ == (kind, children@),
    {
        ENode { kind, children }
    }

    /// A copy with equal kind and children.
    pub fn copy(&self) -> (r: ENode)
        ensures
            r@ == self@,
    {
        ENode { kind: self.kind, children: copy_ids(&self.children) }
    }

    /// Structural equality: same kind and same children in the same order.
    pub fn same(&self, other: &ENode) -> (r: bool)
        ensures
            r == (self@ == other@),
    {
        if self.kind != other.kind {
            return false;
        }
        same_ids(&self.children, &other.children)
    }
}

/// A copy of a list of ids.
pub fn copy_ids(v: &Vec<usize>) -> (r: Vec<usize>)
    ensures
        r@ == v@,
{
    let mut r: Vec<usize> = Vec::new();
    let mut i: usize = 0;
    while i < v.len()
        invariant
            i <= v@.len(),
            r@ == v@.subrange(0, i as int),
        decreases v@.len() - i,
    {
        r.push(v[i]);
        i = i + 1;
    }
    assert(r@ =~= v@);
    r
}

/// Whether two lists of ids are equal.
pub fn same_ids(a: &Vec<usize>, b: &Vec<usize>) -> (r: bool)
    ensures
        r == (a@ == b@),
{
    if a.len() != b.len() {
        return false;
    }
    let mut i: usize = 0;
    while i < a.len()
        invariant
            a@.len() == b@.len(),
            i <= a@.len(),
            forall|k: int| 0 <= k < i ==> a@[k] == b@[k],
        decreases a@.len() - i,
    {
        if a[i] != b[i] {
            return false;
        }
        i = i + 1;
    }
    assert(a@ =~= b@);
    true
}

/// A term: nodes whose children are earlier positions; the last node is the
/// root.
pub struct Term {
    pub nodes: Vec<ENode>,
}

impl View for Term {
    type V = Seq<NodeView>;

    open spec fn view(&self) -> Seq<NodeView> {
        self.nodes@.map_values(|n: ENode| n@)
    }
}

/// A term is nonempty and each child comes before its parent.
pub open spec fn term_wf(t: Seq<NodeView>) -> bool {
    &&& t.len() > 0
    &&& forall|i: int, k: int| 0 <= i < t.len() && 0 <= k < t[i].1.len() ==> (#[trigger] t[i].1[k]) < i
}

/// An alphabet: the declared arity of each operator tag.
pub struct Alphabet {
    pub arities: Vec<Arity>,
}

/// Whether a node of this kind may have `n` children under the given arities.
pub open spec fn shape_ok(arities: Seq<Arity>, kind: Kind, n: nat) -> bool {
    match kind {
        Kind::Op(t) => t < arities.len() && match arities[t as int] {
            Arity::Fixed(k) => n == k,
            Arity::Variadic => true,
        },
        Kind::Sym(_) => n == 0,
        Kind::Num(_) => n == 0,
    }
}

impl Alphabet {
    /// Whether a node of this kind may have `n` children.
    pub fn accepts(&self, kind: Kind, n: usize) -> (r: bool)
        ensures
            r == shape_ok(self.arities@, kind, n as nat),
    {
        match kind {
            Kind::Op(t) => {
                if (t as usize) < self.arities.len() {
                    match self.arities[t as usize] {
                        Arity::Fixed(k) => n == k,
                        Arity::Variadic => true,
                    }
                } else {
                    false
                }
            },
            Kind::Sym(_) => n == 0,
            Kind::Num(_) => n == 0,
        }
    }
}

} // verus!
