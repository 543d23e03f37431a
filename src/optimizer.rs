//! The whole pipeline: check the rules and the input, seed a graph, saturate
//! it within a budget, and extract the cheapest equivalent term.
use vstd::prelude::*;
use crate::egraph::EGraph;
use crate::term::{Alphabet, NodeView, Term, term_wf};
use crate::pattern::{PatternError, check_pattern, pattern_node_ok, pattern_closed, closed_under};
use crate::rewrite::Rewrite;
use crate::scheduler::{Limits, StopReason, rules_wf, saturated};
use crate::extract::{CostModel, ExtractError, extracted, positive_weights, term_cost, term_in};
use crate::seed::{ShapeError, shapes_ok, singleton_classes, lemma_extraction_no_worse, lemma_extraction_same_without_merges};

verus! {

/// The outcome of a run: the cheapest term found and its cost, whether the
/// graph was saturated (else a budget ran out first), how many rounds ran,
/// and the final graph with the class holding both input and output.
pub struct Optimized {
    pub term: Term,
    pub cost: u64,
    pub saturated: bool,
    pub iterations: usize,
    pub graph: EGraph,
    pub root: usize,
}

/// Why a run gave no term.
#[derive(Clone, Copy, Debug, PartialEq, Eq, Structural)]
pub enum OptimizeError {
    /// A rule pattern (rule number, and what is wrong) is malformed.
    Rule(usize, PatternError),
    /// The input term is malformed.
    Shape(ShapeError),
    /// No term could be extracted.
    Extract(ExtractError),
}

/// Both patterns of the rule have allowed shapes.
pub open spec fn rule_ok(arities: Seq<crate::term::Arity>, r: Rewrite) -> bool {
    &&& r.wf()
    &&& forall|p: int| 0 <= p < r.lhs@.len() ==> #[trigger] pattern_node_ok(arities, r.lhs@, p)
    &&& forall|p: int| 0 <= p < r.rhs@.len() ==> #[trigger] pattern_node_ok(arities, r.rhs@, p)
    &&& closed_under(r.rhs@, r.rhs_root(), r.lhs@, r.lhs_root())
}

/// Checks every rule; the first bad one is reported.
pub fn check_rules(alphabet: &Alphabet, rules: &Vec<Rewrite>) -> (r: Result<(), OptimizeError>)
    ensures
        r is Ok <==> forall|i: int| 0 <= i < rules@.len() ==> rule_ok(alphabet.arities@, #[trigger] rules@[i]),
        match r {
            Err(OptimizeError::Rule(i, _)) => i < rules@.len() && !rule_ok(alphabet.arities@, rules@[i as int])
                && forall|j: int| 0 <= j < i ==> rule_ok(alphabet.arities@, #[trigger] rules@[j]),
            Err(_) => false,
            Ok(()) => true,
        },
{
    let mut i: usize = 0;
    while i < rules.len()
        invariant
            i <= rules@.len(),
            forall|j: int| 0 <= j < i ==> rule_ok(alphabet.arities@, #[trigger] rules@[j]),
        decreases rules@.len() - i,
    {
        match check_pattern(alphabet, &rules[i].lhs) {
            Err(e) => {
                return Err(OptimizeError::Rule(i, e));
            },
            Ok(()) => {},
        }
        match check_pattern(alphabet, &rules[i].rhs) {
            Err(e) => {
                return Err(OptimizeError::Rule(i, e));
            },
            Ok(()) => {},
        }
        if !pattern_closed(&rules[i].rhs, rules[i].rhs.nodes.len() - 1, &rules[i].lhs) {
            return Err(OptimizeError::Rule(i, PatternError::Unbound));
        }
        i = i + 1;
    }
    Ok(())
}

/// Optimises `input`: the rules and the input are checked first, then the
/// input is seeded into a fresh graph, the rules are run within `limits`, and
/// the cheapest term of the input's class is extracted. The result is
/// represented in the same class as the input, costs no more than the input
/// (when the input's cost fits in a `u64`) and exactly as much where no two
/// nodes of the final graph share a class, and no term of that class costs
/// less.
pub fn optimize(alphabet: &Alphabet, rules: &Vec<Rewrite>, input: &Term, cm: &CostModel, limits: Limits) -> (r: Result<Optimized, OptimizeError>)
    ensures
        match r {
            Ok(o) => {
                &&& (forall|i: int| 0 <= i < rules@.len() ==> rule_ok(alphabet.arities@, #[trigger] rules@[i]))
                &&& term_wf(input@) && shapes_ok(alphabet.arities@, input@)
                &&& o.graph@.wf()
                &&& o.root < o.graph@.len()
                &&& term_in(o.graph@, input@, (input@.len() - 1) as nat, o.root)
                &&& extracted(o.graph@, cm, o.root, o.cost, o.term@)
                &&& term_cost(cm, input@, (input@.len() - 1) as nat) <= u64::MAX ==> o.cost <= term_cost(cm, input@, (input@.len() - 1) as nat)
                &&& singleton_classes(o.graph@) ==> o.cost == term_cost(cm, input@, (input@.len() - 1) as nat)
                &&& o.iterations <= limits.max_iters
                &&& o.saturated ==> saturated(o.graph@, rules@)
            },
            Err(OptimizeError::Rule(i, _)) => i < rules@.len() && !rule_ok(alphabet.arities@, rules@[i as int]),
            Err(OptimizeError::Shape(_)) => (forall|i: int| 0 <= i < rules@.len() ==> rule_ok(alphabet.arities@, #[trigger] rules@[i]))
                && !(term_wf(input@) && shapes_ok(alphabet.arities@, input@)),
            Err(OptimizeError::Extract(ExtractError::NoFiniteCost)) => term_cost(cm, input@, (input@.len() - 1) as nat) > u64::MAX,
            Err(OptimizeError::Extract(ExtractError::TooDeep)) => !positive_weights(cm),
        },
{
    match check_rules(alphabet, rules) {
        Err(e) => {
            return Err(e);
        },
        Ok(()) => {},
    }
    assert(rules_wf(rules@)) by {
        assert forall|i: int| 0 <= i < rules@.len() implies (#[trigger] rules@[i]).wf() by {
            assert(rule_ok(alphabet.arities@, rules@[i]));
        }
    }
    let n_in = input.nodes.len();
    assert(input@.len() == n_in);
    let mut g = EGraph::new();
    let root = match g.add_term(alphabet, input) {
        Err(e) => {
            return Err(OptimizeError::Shape(e));
        },
        Ok(c) => c,
    };
    let ghost g0 = g@;
    let rep = g.run(rules, limits);
    proof {
        crate::seed::lemma_term_in_extends(g0, g@, input@, (input@.len() - 1) as nat, root, root);
    }
    match g.extract(cm, root) {
        Err(ExtractError::NoFiniteCost) => Err(OptimizeError::Extract(ExtractError::NoFiniteCost)),
        Err(e) => Err(OptimizeError::Extract(e)),
        Ok((cost, term)) => {
            proof {
                if term_cost(cm, input@, (input@.len() - 1) as nat) <= u64::MAX {
                    lemma_extraction_no_worse(g0, g@, cm, input@, root, cost, term@);
                }
                if singleton_classes(g@) {
                    lemma_extraction_same_without_merges(g0, g@, cm, input@, root, cost, term@);
                }
            }
            Ok(Optimized { term, cost, saturated: rep.stop == StopReason::Saturated, iterations: rep.iterations, graph: g, root })
        },
    }
}

} // verus!
