use eqsat::egraph::EGraph;
use eqsat::extract::{CostModel, ExtractError};
use eqsat::matcher::{match_class, Subst};
use eqsat::optimizer::{optimize, OptimizeError};
use eqsat::pattern::{check_pattern, PatKind, PatNode, Pattern, PatternError};
use eqsat::rewrite::Rewrite;
use eqsat::scheduler::{Limits, StopReason};
use eqsat::seed::ShapeError;
use eqsat::term::{Alphabet, Arity, ENode, Kind, Term};

const ADD: u32 = 0;
const MOV: u32 = 1;
const SEQ: u32 = 2;
const NOP: u32 = 3;
const SUB: u32 = 4;
const LI: u32 = 5;

const T0: Kind = Kind::Sym(0);
const T1: Kind = Kind::Sym(1);
const T2: Kind = Kind::Sym(2);
const ZERO: Kind = Kind::Sym(9);

fn alphabet() -> Alphabet {
    Alphabet {
        arities: vec![
            Arity::Fixed(3),
            Arity::Fixed(2),
            Arity::Variadic,
            Arity::Fixed(0),
            Arity::Fixed(3),
            Arity::Fixed(2),
        ],
    }
}

fn names(k: Kind) -> String {
    match k {
        Kind::Op(t) => ["add", "mov", "seq", "nop", "sub", "li"][t as usize].to_string(),
        Kind::Sym(9) => "zero".to_string(),
        Kind::Sym(n) => format!("t{}", n),
        Kind::Num(n) => format!("{}", n),
    }
}

fn render_at(t: &Term, i: usize) -> String {
    let n = &t.nodes[i];
    if n.children.is_empty() {
        match n.kind {
            Kind::Op(_) => format!("({})", names(n.kind)),
            _ => names(n.kind),
        }
    } else {
        let parts: Vec<String> = n.children.iter().map(|&c| render_at(t, c)).collect();
        format!("({} {})", names(n.kind), parts.join(" "))
    }
}

fn render(t: &Term) -> String {
    render_at(t, t.nodes.len() - 1)
}

/// Builds terms children first.
struct TermBuilder {
    nodes: Vec<ENode>,
}

impl TermBuilder {
    fn new() -> Self {
        TermBuilder { nodes: Vec::new() }
    }
    fn node(&mut self, kind: Kind, children: Vec<usize>) -> usize {
        self.nodes.push(ENode::new(kind, children));
        self.nodes.len() - 1
    }
    fn leaf(&mut self, kind: Kind) -> usize {
        self.node(kind, vec![])
    }
    fn op(&mut self, t: u32, children: Vec<usize>) -> usize {
        self.node(Kind::Op(t), children)
    }
    fn build(self) -> Term {
        Term { nodes: self.nodes }
    }
}

/// Builds patterns children first.
struct PatBuilder {
    nodes: Vec<PatNode>,
}

impl PatBuilder {
    fn new() -> Self {
        PatBuilder { nodes: Vec::new() }
    }
    fn push(&mut self, kind: PatKind, children: Vec<usize>) -> usize {
        self.nodes.push(PatNode { kind, children });
        self.nodes.len() - 1
    }
    fn var(&mut self, v: usize) -> usize {
        self.push(PatKind::Var(v), vec![])
    }
    fn rest(&mut self, v: usize) -> usize {
        self.push(PatKind::Rest(v), vec![])
    }
    fn leaf(&mut self, k: Kind) -> usize {
        self.push(PatKind::Node(k), vec![])
    }
    fn op(&mut self, t: u32, children: Vec<usize>) -> usize {
        self.push(PatKind::Node(Kind::Op(t)), children)
    }
    fn build(self) -> Pattern {
        Pattern { nodes: self.nodes }
    }
}

/// add(d, s, zero) -> mov(d, s)
fn rule_add_zero() -> Rewrite {
    let mut l = PatBuilder::new();
    let d = l.var(0);
    let s = l.var(1);
    let z = l.leaf(ZERO);
    l.op(ADD, vec![d, s, z]);
    let mut r = PatBuilder::new();
    let d = r.var(0);
    let s = r.var(1);
    r.op(MOV, vec![d, s]);
    Rewrite { name: "add-zero".to_string(), lhs: l.build(), rhs: r.build(), n_vars: 2 }
}

/// mov(d, d) -> nop
fn rule_mov_self() -> Rewrite {
    let mut l = PatBuilder::new();
    let d = l.var(0);
    l.op(MOV, vec![d, d]);
    let mut r = PatBuilder::new();
    r.op(NOP, vec![]);
    Rewrite { name: "mov-self".to_string(), lhs: l.build(), rhs: r.build(), n_vars: 1 }
}

/// seq(pre*, nop, post*) -> seq(pre*, post*)
fn rule_remove_nop() -> Rewrite {
    let mut l = PatBuilder::new();
    let pre = l.rest(0);
    let nop = l.op(NOP, vec![]);
    let post = l.rest(1);
    l.op(SEQ, vec![pre, nop, post]);
    let mut r = PatBuilder::new();
    let pre = r.rest(0);
    let post = r.rest(1);
    r.op(SEQ, vec![pre, post]);
    Rewrite { name: "remove-nop".to_string(), lhs: l.build(), rhs: r.build(), n_vars: 2 }
}

/// sub(d, s, s) -> li(d, 0)
fn rule_sub_same() -> Rewrite {
    let mut l = PatBuilder::new();
    let d = l.var(0);
    let s = l.var(1);
    l.op(SUB, vec![d, s, s]);
    let mut r = PatBuilder::new();
    let d = r.var(0);
    let z = r.leaf(Kind::Num(0));
    r.op(LI, vec![d, z]);
    Rewrite { name: "sub-same".to_string(), lhs: l.build(), rhs: r.build(), n_vars: 2 }
}

fn node_count() -> CostModel {
    CostModel { op_costs: vec![], default_cost: 1 }
}

fn limits() -> Limits {
    Limits { max_iters: 30, max_nodes: 10_000, max_millis: 60_000 }
}

#[test]
fn adding_a_node_twice_gives_one_class() {
    let mut g = EGraph::new();
    let a = g.add(ENode::leaf(T0));
    let b = g.add(ENode::leaf(T1));
    let f1 = g.add(ENode::new(Kind::Op(MOV), vec![a, b]));
    let n = g.len();
    let f2 = g.add(ENode::new(Kind::Op(MOV), vec![a, b]));
    assert_eq!(f1, f2);
    assert_eq!(g.len(), n);
    let a2 = g.add(ENode::leaf(T0));
    assert_eq!(a, a2);
    assert_ne!(a, b);
}

#[test]
fn congruence_is_restored_by_rebuild() {
    let mut g = EGraph::new();
    let a = g.add(ENode::leaf(T0));
    let a2 = g.add(ENode::leaf(T1));
    let b = g.add(ENode::leaf(T2));
    let b2 = g.add(ENode::leaf(ZERO));
    let f = g.add(ENode::new(Kind::Op(MOV), vec![a, b]));
    let f2 = g.add(ENode::new(Kind::Op(MOV), vec![a2, b2]));
    assert_ne!(g.find(f), g.find(f2));
    g.union(a, a2);
    g.union(b, b2);
    assert_ne!(g.find(f), g.find(f2));
    g.rebuild();
    assert_eq!(g.find(f), g.find(f2));
    // a node added after the merge lands in the same class
    let f3 = g.add(ENode::new(Kind::Op(MOV), vec![a2, b]));
    assert_eq!(g.find(f3), g.find(f));
}

#[test]
fn union_of_one_class_changes_nothing() {
    let mut g = EGraph::new();
    let a = g.add(ENode::leaf(T0));
    let b = g.add(ENode::leaf(T1));
    let r = g.union(a, b);
    assert_eq!(r, a);
    let r2 = g.union(b, a);
    assert_eq!(r2, a);
    assert_eq!(g.find(b), a);
}

#[test]
fn extraction_is_no_worse_than_the_input() {
    let mut t = TermBuilder::new();
    let t0 = t.leaf(T0);
    let t1 = t.leaf(T1);
    let z = t.leaf(ZERO);
    let add = t.op(ADD, vec![t0, t1, z]);
    let mv = t.op(MOV, vec![t0, t0]);
    t.op(SEQ, vec![add, mv]);
    let input = t.build();
    let cm = node_count();
    let rules = vec![rule_add_zero(), rule_mov_self(), rule_remove_nop()];
    let o = optimize(&alphabet(), &rules, &input, &cm, limits()).unwrap();
    // input: seq(add(t0 t1 zero), mov(t0 t0)) has 8 nodes
    assert!(o.cost <= 8);
    assert_eq!(o.cost, 4);
    assert_eq!(render(&o.term), "(seq (mov t0 t1))");
    // with no rules the input comes back at its own cost
    let none: Vec<Rewrite> = vec![];
    let o2 = optimize(&alphabet(), &none, &input, &cm, limits()).unwrap();
    assert_eq!(o2.cost, 8);
    assert_eq!(render(&o2.term), "(seq (add t0 t1 zero) (mov t0 t0))");
    assert!(o2.saturated);
}

#[test]
fn a_round_after_saturation_makes_no_union() {
    let mut t = TermBuilder::new();
    let t0 = t.leaf(T0);
    let t1 = t.leaf(T1);
    let z = t.leaf(ZERO);
    let add = t.op(ADD, vec![t0, t1, z]);
    let mv = t.op(MOV, vec![t1, t1]);
    t.op(SEQ, vec![add, mv]);
    let input = t.build();
    let rules = vec![rule_add_zero(), rule_mov_self(), rule_remove_nop()];
    let mut g = EGraph::new();
    g.add_term(&alphabet(), &input).unwrap();
    let rep = g.run(&rules, limits());
    assert!(rep.stop == StopReason::Saturated);
    let n = g.len();
    let again = g.round(&rules);
    assert_eq!(again.unions, 0);
    assert_eq!(g.len(), n);
}

#[test]
fn budget_stops_the_run() {
    let mut t = TermBuilder::new();
    let t0 = t.leaf(T0);
    let t1 = t.leaf(T1);
    let z = t.leaf(ZERO);
    t.op(ADD, vec![t0, t1, z]);
    let input = t.build();
    let rules = vec![rule_add_zero()];
    let mut g = EGraph::new();
    g.add_term(&alphabet(), &input).unwrap();
    let rep = g.run(&rules, Limits { max_iters: 0, max_nodes: 100, max_millis: 60_000 });
    assert!(rep.stop == StopReason::IterLimit);
    assert_eq!(rep.iterations, 0);
    let mut g2 = EGraph::new();
    g2.add_term(&alphabet(), &input).unwrap();
    let rep2 = g2.run(&rules, Limits { max_iters: 10, max_nodes: 2, max_millis: 60_000 });
    assert!(rep2.stop == StopReason::NodeLimit);
    let mut g3 = EGraph::new();
    g3.add_term(&alphabet(), &input).unwrap();
    let rep3 = g3.run(&rules, Limits { max_iters: 10, max_nodes: 100, max_millis: 0 });
    assert!(rep3.stop == StopReason::TimeLimit);
    assert_eq!(rep3.iterations, 0);
}

#[test]
fn wildcards_bind_prefix_and_suffix() {
    // seq(a, b, nop, c): n = 4, the nop at k = 2
    let mut t = TermBuilder::new();
    let ta = t.leaf(T0);
    let tb = t.leaf(T1);
    let tc = t.leaf(T2);
    let ma = t.op(MOV, vec![ta, ta]);
    let mb = t.op(MOV, vec![tb, tb]);
    let nop = t.op(NOP, vec![]);
    let mc = t.op(MOV, vec![tc, tc]);
    t.op(SEQ, vec![ma, mb, nop, mc]);
    let input = t.build();
    let mut g = EGraph::new();
    let root = g.add_term(&alphabet(), &input).unwrap();
    let rule = rule_remove_nop();
    let empty = Subst::empty(2);
    let found = match_class(&g, &rule.lhs, rule.lhs.nodes.len() - 1, root, &empty);
    assert_eq!(found.len(), 1);
    let s = &found[0];
    let pre = s.get(0).unwrap().clone();
    let post = s.get(1).unwrap().clone();
    assert_eq!(pre.len(), 2);
    assert_eq!(post.len(), 1);
    let seq_node = g.node(g.find(root)).children.clone();
    assert_eq!(pre, vec![g.find(seq_node[0]), g.find(seq_node[1])]);
    assert_eq!(post, vec![g.find(seq_node[3])]);
    // applying it builds seq(a, b, c) in the same class
    let built = g.instantiate(&rule.rhs, rule.rhs.nodes.len() - 1, s).unwrap();
    let kids = g.node(built).children.clone();
    assert_eq!(kids, vec![seq_node[0], seq_node[1], seq_node[3]]);
    g.union(root, built);
    g.rebuild();
    assert_eq!(g.find(root), g.find(built));
}

#[test]
fn every_split_is_a_match() {
    // seq(nop, nop): the wildcard pattern fits at either nop
    let mut t = TermBuilder::new();
    let n1 = t.op(NOP, vec![]);
    t.op(SEQ, vec![n1, n1]);
    let input = t.build();
    let mut g = EGraph::new();
    let root = g.add_term(&alphabet(), &input).unwrap();
    let rule = rule_remove_nop();
    let found = match_class(&g, &rule.lhs, rule.lhs.nodes.len() - 1, root, &Subst::empty(2));
    assert_eq!(found.len(), 2);
    let mut lens: Vec<(usize, usize)> = found
        .iter()
        .map(|s| (s.get(0).unwrap().len(), s.get(1).unwrap().len()))
        .collect();
    lens.sort();
    assert_eq!(lens, vec![(0, 1), (1, 0)]);
}

#[test]
fn add_with_zero_becomes_mov() {
    let mut t = TermBuilder::new();
    let t0 = t.leaf(T0);
    let t1 = t.leaf(T1);
    let z = t.leaf(ZERO);
    t.op(ADD, vec![t0, t1, z]);
    let input = t.build();
    let rules = vec![rule_add_zero()];
    // operators free, each leaf 1: add(t0, t1, zero) costs 3, mov(t0, t1) costs 2
    let leaves = CostModel { op_costs: vec![0, 0, 0, 0, 0, 0], default_cost: 1 };
    let o = optimize(&alphabet(), &rules, &input, &leaves, limits()).unwrap();
    assert_eq!(render(&o.term), "(mov t0 t1)");
    assert_eq!(o.cost, 2);
    // one per node, leaves included: 4 against 3
    let o2 = optimize(&alphabet(), &rules, &input, &node_count(), limits()).unwrap();
    assert_eq!(render(&o2.term), "(mov t0 t1)");
    assert_eq!(o2.cost, 3);
}

#[test]
fn self_move_and_nop_are_removed_from_a_sequence() {
    let mut t = TermBuilder::new();
    let t0 = t.leaf(T0);
    let t1 = t.leaf(T1);
    let t2 = t.leaf(T2);
    let m1 = t.op(MOV, vec![t0, t1]);
    let m2 = t.op(MOV, vec![t0, t0]);
    let m3 = t.op(MOV, vec![t1, t2]);
    t.op(SEQ, vec![m1, m2, m3]);
    let input = t.build();
    let rules = vec![rule_mov_self(), rule_remove_nop()];
    let o = optimize(&alphabet(), &rules, &input, &node_count(), limits()).unwrap();
    assert_eq!(render(&o.term), "(seq (mov t0 t1) (mov t1 t2))");
    assert!(o.saturated);
}

#[test]
fn sub_of_equal_registers_becomes_load_zero() {
    let mut t = TermBuilder::new();
    let t0 = t.leaf(T0);
    let t1 = t.leaf(T1);
    t.op(SUB, vec![t0, t1, t1]);
    let input = t.build();
    let rules = vec![rule_sub_same(), rule_add_zero()];
    let o = optimize(&alphabet(), &rules, &input, &node_count(), limits()).unwrap();
    assert_eq!(render(&o.term), "(li t0 0)");
    assert_eq!(o.cost, 3);
    assert!(o.saturated);
    assert!(o.iterations < 30);
}

#[test]
fn malformed_terms_are_refused() {
    let rules: Vec<Rewrite> = vec![];
    let cm = node_count();
    let empty = Term { nodes: vec![] };
    assert!(matches!(
        optimize(&alphabet(), &rules, &empty, &cm, limits()),
        Err(OptimizeError::Shape(ShapeError::Empty))
    ));
    let forward = Term { nodes: vec![ENode::new(Kind::Op(MOV), vec![1, 1]), ENode::leaf(T0)] };
    assert!(matches!(
        optimize(&alphabet(), &rules, &forward, &cm, limits()),
        Err(OptimizeError::Shape(ShapeError::ChildOrder(0)))
    ));
    let mut t = TermBuilder::new();
    let t0 = t.leaf(T0);
    t.op(MOV, vec![t0]);
    let short = t.build();
    assert!(matches!(
        optimize(&alphabet(), &rules, &short, &cm, limits()),
        Err(OptimizeError::Shape(ShapeError::Arity(1)))
    ));
    let unknown = Term { nodes: vec![ENode::leaf(Kind::Op(40))] };
    assert!(matches!(
        optimize(&alphabet(), &rules, &unknown, &cm, limits()),
        Err(OptimizeError::Shape(ShapeError::Arity(0)))
    ));
    let mut g = EGraph::new();
    assert!(g.add_term(&alphabet(), &short) == Err(ShapeError::Arity(1)));
    assert_eq!(g.len(), 0);
}

#[test]
fn malformed_rules_are_refused() {
    let mut t = TermBuilder::new();
    t.leaf(T0);
    let input = t.build();
    let cm = node_count();
    let empty_lhs = Rewrite { name: "e".to_string(), lhs: Pattern { nodes: vec![] }, rhs: rule_mov_self().rhs, n_vars: 0 };
    assert!(matches!(
        optimize(&alphabet(), &vec![rule_add_zero(), empty_lhs], &input, &cm, limits()),
        Err(OptimizeError::Rule(1, PatternError::Empty))
    ));
    let mut p = PatBuilder::new();
    p.push(PatKind::Node(Kind::Op(MOV)), vec![1, 1]);
    p.var(0);
    assert!(check_pattern(&alphabet(), &p.build()) == Err(PatternError::ChildOrder(0)));
    // a wildcard under a fixed-arity operator
    let mut p = PatBuilder::new();
    let r = p.rest(0);
    let v = p.var(1);
    p.op(MOV, vec![r, v]);
    assert!(check_pattern(&alphabet(), &p.build()) == Err(PatternError::Shape(2)));
    // a wildcard as the whole pattern
    let mut p = PatBuilder::new();
    p.rest(0);
    assert!(check_pattern(&alphabet(), &p.build()) == Err(PatternError::Shape(0)));
    assert!(check_pattern(&alphabet(), &rule_remove_nop().lhs).is_ok());
}

#[test]
fn a_term_too_costly_has_no_finite_cost() {
    let mut t = TermBuilder::new();
    let t0 = t.leaf(T0);
    t.op(MOV, vec![t0, t0]);
    let input = t.build();
    let rules: Vec<Rewrite> = vec![];
    let heavy = CostModel { op_costs: vec![0, u64::MAX], default_cost: 1 };
    assert!(matches!(
        optimize(&alphabet(), &rules, &input, &heavy, limits()),
        Err(OptimizeError::Extract(ExtractError::NoFiniteCost))
    ));
}

#[test]
fn the_cost_model_weighs_operators() {
    let mut t = TermBuilder::new();
    let t0 = t.leaf(T0);
    let t1 = t.leaf(T1);
    let z = t.leaf(ZERO);
    t.op(ADD, vec![t0, t1, z]);
    let input = t.build();
    // mov made dear: the add stays
    let cm = CostModel { op_costs: vec![1, 100], default_cost: 1 };
    let o = optimize(&alphabet(), &vec![rule_add_zero()], &input, &cm, limits()).unwrap();
    assert_eq!(render(&o.term), "(add t0 t1 zero)");
    assert_eq!(o.cost, 4);
    let mut g = EGraph::new();
    let root = g.add_term(&alphabet(), &input).unwrap();
    let (c, _) = g.extract(&cm, root).unwrap();
    assert_eq!(c, 4);
}

#[test]
fn a_right_side_naming_an_unbound_variable_is_refused() {
    let mut t = TermBuilder::new();
    t.leaf(T0);
    let input = t.build();
    // mov(d, d) -> mov(d, s), where s is bound nowhere on the left
    let mut l = PatBuilder::new();
    let d = l.var(0);
    l.op(MOV, vec![d, d]);
    let mut r = PatBuilder::new();
    let d = r.var(0);
    let s = r.var(1);
    r.op(MOV, vec![d, s]);
    let bad = Rewrite { name: "bad".to_string(), lhs: l.build(), rhs: r.build(), n_vars: 2 };
    assert!(matches!(
        optimize(&alphabet(), &vec![rule_mov_self(), bad], &input, &node_count(), limits()),
        Err(OptimizeError::Rule(1, PatternError::Unbound))
    ));
    // a wildcard used as a variable on the right is refused too
    let mut l = PatBuilder::new();
    let pre = l.rest(0);
    l.op(SEQ, vec![pre]);
    let mut r = PatBuilder::new();
    let v = r.var(0);
    r.op(MOV, vec![v, v]);
    let bad2 = Rewrite { name: "bad2".to_string(), lhs: l.build(), rhs: r.build(), n_vars: 1 };
    assert!(matches!(
        optimize(&alphabet(), &vec![bad2], &input, &node_count(), limits()),
        Err(OptimizeError::Rule(0, PatternError::Unbound))
    ));
}

#[test]
fn a_step_stops_on_nodes_then_time_then_saturates() {
    let mut t = TermBuilder::new();
    let t0 = t.leaf(T0);
    let t1 = t.leaf(T1);
    let z = t.leaf(ZERO);
    t.op(ADD, vec![t0, t1, z]);
    let input = t.build();
    let rules = vec![rule_add_zero()];
    let mut g = EGraph::new();
    g.add_term(&alphabet(), &input).unwrap();
    g.rebuild();
    let n = g.len();
    let tight = Limits { max_iters: 10, max_nodes: 2, max_millis: 1_000 };
    assert!(g.step(&rules, tight, 5_000) == Some(StopReason::NodeLimit));
    assert_eq!(g.len(), n);
    let slow = Limits { max_iters: 10, max_nodes: 100, max_millis: 1_000 };
    assert!(g.step(&rules, slow, 1_000) == Some(StopReason::TimeLimit));
    assert_eq!(g.len(), n);
    // first round rewrites, second finds nothing new
    assert!(g.step(&rules, slow, 0).is_none());
    assert!(g.len() > n);
    assert!(g.step(&rules, slow, 0) == Some(StopReason::Saturated));
}

#[test]
fn a_round_with_closed_rules_builds_every_match() {
    let mut t = TermBuilder::new();
    let t0 = t.leaf(T0);
    let t1 = t.leaf(T1);
    let z = t.leaf(ZERO);
    let a = t.op(ADD, vec![t0, t1, z]);
    let m = t.op(MOV, vec![t0, t0]);
    t.op(SEQ, vec![a, m]);
    let input = t.build();
    let rules = vec![rule_add_zero(), rule_mov_self(), rule_remove_nop()];
    let mut g = EGraph::new();
    g.add_term(&alphabet(), &input).unwrap();
    g.rebuild();
    let rep = g.round(&rules);
    assert!(rep.unbuilt.is_empty());
    assert_eq!(rep.applied.len(), 2);
    assert_eq!(rep.merged.len(), 2);
    assert_eq!(rep.unions, 2);
}
