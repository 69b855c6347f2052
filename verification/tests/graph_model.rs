use ric3::aig_logic::AigCube;
use ric3::AigDnf;
use ric3::SuccessRate;
use ric3::TernaryValue::{False, True, X};
use ric3::model::{latch_init_edges, Model};
use ric3::{Aig, AigEdge, AigLatch, Cube, Lit, TernaryValue, Var};

fn lit(var: u32, polarity: bool) -> Lit {
    Lit::new(Var { id: var }, polarity)
}

#[test]
fn edge_literal_round_trip() {
    let e = AigEdge::new(6, true);
    let l = e.to_lit();
    assert_eq!(l.var().id, 6);
    assert!(!l.polarity());
    let back = AigEdge::from_lit(l);
    assert_eq!(back, e);
}

#[test]
fn and_node_constant_folding() {
    let mut aig = Aig::new();
    let a = aig.new_input_node();
    let b = aig.new_input_node();
    let ea = AigEdge::new(a, false);
    let eb = AigEdge::new(b, false);
    // true is neutral
    assert_eq!(aig.new_and_node(AigEdge::constant_edge(true), ea), ea);
    // false absorbs
    assert_eq!(
        aig.new_and_node(AigEdge::constant_edge(false), ea),
        AigEdge::constant_edge(false)
    );
    // idempotence and contradiction
    assert_eq!(aig.new_and_node(ea, ea), ea);
    assert_eq!(aig.new_and_node(ea, ea.negate()), AigEdge::constant_edge(false));
    // a real gate allocates a node
    let g = aig.new_and_node(ea, eb);
    assert_eq!(g.node_id(), 3);
    assert!(!g.compl());
    assert_eq!(aig.num_nodes(), 4);
}

/// A two-latch shift-and-invert circuit: latch 1 follows an AND of
/// the two latches, latch 2 follows the negation of latch 1.
fn two_latch_aig() -> Aig {
    let mut aig = Aig::new();
    // nodes 1 and 2 are the latch state nodes
    let mut nodes = aig.nodes;
    nodes.push(ric3::AigNode {
        id: 1,
        level: 0,
        typ: ric3::AigNodeType::LatchInput,
        fanouts: Vec::new(),
    });
    nodes.push(ric3::AigNode {
        id: 2,
        level: 0,
        typ: ric3::AigNodeType::LatchInput,
        fanouts: Vec::new(),
    });
    aig.nodes = nodes;
    let e1 = AigEdge::new(1, false);
    let e2 = AigEdge::new(2, false);
    let g = aig.new_and_node(e1, e2);
    aig.latchs.push(AigLatch::new(1, g, Some(false)));
    aig.latchs.push(AigLatch::new(2, e1.negate(), Some(true)));
    aig.outputs.push(e1);
    aig
}

#[test]
fn from_aig_builds_the_canonical_model() {
    let aig = two_latch_aig();
    let m = Model::from_aig(&aig);
    assert_eq!(m.num_var, aig.num_nodes() + 2);
    assert_eq!(m.latchs, vec![Var { id: 1 }, Var { id: 2 }]);
    assert_eq!(m.primes.len(), 2);
    assert_eq!(m.primes[0].id as usize, aig.num_nodes());
    // init map mirrors the latch init bits
    assert_eq!(m.init[1], Some(false));
    assert_eq!(m.init[2], Some(true));
    // with no bad edge listed, the first output serves as bad
    assert_eq!(m.bad.var().id, 1);
    assert!(m.bad.polarity());
    // the prime maps link latches and primes both ways
    let c = {
        let mut c = Cube::new();
        c.push(lit(1, true));
        c.push(lit(2, false));
        c
    };
    let next = m.cube_next(&c);
    let back = m.cube_previous(&next);
    assert_eq!(back, c);
    // the transition CNF covers the AND node and both primes
    assert!(m.trans.len() >= 3 + 2 * 2);
}

#[test]
fn latch_init_edges_follow_defined_bits() {
    let mut aig = two_latch_aig();
    aig.latchs[0].init = None;
    let edges = latch_init_edges(&aig);
    assert_eq!(edges.len(), 1);
    assert_eq!(edges[0], AigEdge::new(2, false));
}

#[test]
fn ternary_operations() {
    assert_eq!(True.band(True), True);
    assert_eq!(True.band(False), False);
    assert_eq!(X.band(False), False);
    assert_eq!(X.band(True), X);
    assert_eq!(X.bor(True), True);
    assert_eq!(X.bor(False), X);
    assert_eq!(X.negate(), X);
    assert_eq!(True.not_if(true), False);
    assert_eq!(TernaryValue::from_bool(true), True);
}

#[test]
fn ternary_simulation_follows_gates() {
    let aig = two_latch_aig();
    let sim = aig.ternary_simulate(&Vec::new(), &vec![True, X]);
    assert_eq!(sim[0], False);
    assert_eq!(sim[1], True);
    assert_eq!(sim[2], X);
    // node 3 is latch1 AND latch2 = true AND X = X
    assert_eq!(sim[3], X);
    let sim2 = aig.update_ternary_simulate(sim, 2, False);
    assert_eq!(sim2[2], False);
    assert_eq!(sim2[3], False);
}

#[test]
fn aig_cube_subsume_and_conversion() {
    let mut a = AigCube::new();
    a.push(AigEdge::new(3, false));
    let mut b = AigCube::new();
    b.push(AigEdge::new(5, true));
    b.push(AigEdge::new(3, false));
    assert!(a.subsume(&b));
    assert!(!b.subsume(&a));
    let c = a.to_cube();
    assert_eq!(c.get(0), lit(3, true));
    let back = AigCube::from_cube(&c);
    assert_eq!(back.edges[0], AigEdge::new(3, false));
}

#[test]
fn dnf_subsume_check_insertion() {
    let mut d = AigDnf::new();
    let mut weak = AigCube::new();
    weak.push(AigEdge::new(1, false));
    weak.push(AigEdge::new(2, false));
    d.add_cube_with_subsume_check(weak);
    assert_eq!(d.cubes.len(), 1);
    // a stronger cube replaces the weaker one
    let mut strong = AigCube::new();
    strong.push(AigEdge::new(1, false));
    d.add_cube_with_subsume_check(strong);
    assert_eq!(d.cubes.len(), 1);
    assert_eq!(d.cubes[0].edges, vec![AigEdge::new(1, false)]);
    // a cube the stored one subsumes is refused
    let mut weaker = AigCube::new();
    weaker.push(AigEdge::new(1, false));
    weaker.push(AigEdge::new(7, true));
    d.add_cube_with_subsume_check(weaker);
    assert_eq!(d.cubes.len(), 1);
}

#[test]
fn cnf_encoding_of_a_gate() {
    let aig = two_latch_aig();
    let cnf = aig.get_cnf();
    // one gate, three Tseitin clauses, no constraints
    assert_eq!(cnf.len(), 3);
    assert_eq!(cnf.get(0).len(), 2);
    assert_eq!(cnf.get(1).len(), 2);
    assert_eq!(cnf.get(2).len(), 3);
    // the cone of node 3 holds that node and both latches
    let flags = aig.fanin_logic_cone(&vec![AigEdge::new(3, false)]);
    assert_eq!(flags, vec![false, true, true, true]);
    let opt = aig.get_optimized_cnf(&vec![AigEdge::new(3, false)]);
    assert_eq!(opt.len(), 3);
    // an edge below the AND node pulls nothing else in
    let flags2 = aig.fanin_logic_cone(&vec![AigEdge::new(1, false)]);
    assert_eq!(flags2, vec![false, true, false, false]);
    let opt2 = aig.get_optimized_cnf(&vec![AigEdge::new(1, false)]);
    assert_eq!(opt2.len(), 0);
}

#[test]
fn success_rate_counts() {
    let mut sr = SuccessRate::default();
    sr.success();
    sr.statistic(true);
    sr.statistic(false);
    assert_eq!(sr.succ, 2);
    assert_eq!(sr.fail, 1);
}

#[test]
fn tseitin_clauses_of_the_gate() {
    // node 3 = and(node 1, node 2): the three clauses are
    // (!3 | 1), (!3 | 2), (3 | !1 | !2)
    let aig = two_latch_aig();
    let cnf = aig.get_cnf();
    let c0 = cnf.get(0);
    assert_eq!((c0.get(0), c0.get(1)), (lit(3, false), lit(1, true)));
    let c1 = cnf.get(1);
    assert_eq!((c1.get(0), c1.get(1)), (lit(3, false), lit(2, true)));
    let c2 = cnf.get(2);
    assert_eq!((c2.get(0), c2.get(1), c2.get(2)), (lit(3, true), lit(1, false), lit(2, false)));
}

#[test]
fn latch_init_cube_matches_init_edges() {
    let aig = two_latch_aig();
    let cube = aig.latch_init_cube();
    assert_eq!(cube.edges.len(), 2);
    assert_eq!(cube.edges[0], AigEdge::new(1, true));
    assert_eq!(cube.edges[1], AigEdge::new(2, false));
}
