use ric3::analysis::filter;
use ric3::{Aig, AigEdge, AigLatch, AigNodeType, Cube, Lit, Var};

fn lit(var: u32, polarity: bool) -> Lit {
    Lit::new(Var { id: var }, polarity)
}

fn cube_of(lits: &[Lit]) -> Cube {
    let mut c = Cube::new();
    for l in lits {
        c.push(*l);
    }
    c
}

#[test]
fn from_parts_accepts_a_well_formed_circuit() {
    // node 1: input, node 2: latch, node 3: and(1, !2)
    let aig = Aig::from_parts(
        4,
        vec![1],
        vec![AigLatch::new(2, AigEdge::new(3, false), Some(false))],
        vec![AigEdge::new(3, false)],
        Vec::new(),
        Vec::new(),
        vec![(3, AigEdge::new(1, false), AigEdge::new(2, true))],
    )
    .unwrap();
    assert_eq!(aig.num_nodes(), 4);
    assert!(matches!(aig.nodes[0].typ, AigNodeType::False));
    assert!(aig.nodes[1].is_prime_input());
    assert!(aig.nodes[2].is_latch_input());
    assert!(aig.nodes[3].is_and());
    assert_eq!(aig.nodes[3].fanin0(), AigEdge::new(1, false));
    assert_eq!(aig.nodes[3].fanin1(), AigEdge::new(2, true));
    // levels: leaves at 0, the AND one above
    assert_eq!(aig.nodes[1].level, 0);
    assert_eq!(aig.nodes[3].level, 1);
    // fanouts: both leaves feed node 3
    assert_eq!(aig.nodes[1].fanouts, vec![AigEdge::new(3, false)]);
    assert_eq!(aig.nodes[2].fanouts, vec![AigEdge::new(3, true)]);
}

#[test]
fn from_parts_rejects_a_doubly_claimed_node() {
    let r = Aig::from_parts(
        3,
        vec![1, 1],
        Vec::new(),
        vec![AigEdge::new(1, false)],
        Vec::new(),
        Vec::new(),
        vec![(2, AigEdge::new(1, false), AigEdge::new(1, true))],
    );
    assert!(r.is_none());
}

#[test]
fn from_parts_rejects_a_fanin_at_or_above_its_node() {
    let r = Aig::from_parts(
        3,
        vec![1],
        Vec::new(),
        vec![AigEdge::new(2, false)],
        Vec::new(),
        Vec::new(),
        vec![(2, AigEdge::new(1, false), AigEdge::new(2, false))],
    );
    assert!(r.is_none());
}

#[test]
fn from_parts_rejects_an_out_of_range_output() {
    let r = Aig::from_parts(
        2,
        vec![1],
        Vec::new(),
        vec![AigEdge::new(7, false)],
        Vec::new(),
        Vec::new(),
        Vec::new(),
    );
    assert!(r.is_none());
}

#[test]
fn from_parts_rejects_an_unclaimed_node() {
    let r = Aig::from_parts(
        3,
        vec![1],
        Vec::new(),
        vec![AigEdge::new(1, false)],
        Vec::new(),
        Vec::new(),
        Vec::new(),
    );
    assert!(r.is_none());
}

#[test]
fn fanout_cone_follows_fanout_lists() {
    let aig = Aig::from_parts(
        4,
        vec![1, 2],
        Vec::new(),
        vec![AigEdge::new(3, false)],
        Vec::new(),
        Vec::new(),
        vec![(3, AigEdge::new(1, false), AigEdge::new(2, false))],
    )
    .unwrap();
    let cone = aig.fanout_logic_cone(AigEdge::new(1, false));
    assert_eq!(cone, vec![false, true, false, true]);
    let cone0 = aig.fanout_logic_cone(AigEdge::new(0, false));
    assert_eq!(cone0, vec![true, false, false, false]);
}

#[test]
fn filter_keeps_cubes_that_assign_every_chosen_variable() {
    let inv = vec![
        cube_of(&[lit(1, true), lit(2, false)]),
        cube_of(&[lit(2, true)]),
        cube_of(&[lit(1, false), lit(3, true)]),
    ];
    let chosen = vec![Var { id: 1 }];
    let out = filter(inv, &chosen);
    // the middle cube does not assign variable 1 and is dropped; the
    // others keep variable 1 first, the rest behind
    assert_eq!(out.len(), 2);
    assert_eq!(out[0], cube_of(&[lit(1, true), lit(2, false)]));
    assert_eq!(out[1], cube_of(&[lit(1, false), lit(3, true)]));
}

#[test]
fn filter_on_no_chosen_variables_keeps_everything() {
    let inv = vec![cube_of(&[lit(4, true)])];
    let out = filter(inv, &Vec::new());
    assert_eq!(out.len(), 1);
    assert_eq!(out[0], cube_of(&[lit(4, true)]));
}

#[test]
fn and_of_an_edge_list() {
    let mut aig = Aig::new();
    let a = aig.new_input_node();
    let b = aig.new_input_node();
    let c = aig.new_input_node();
    let edges = vec![AigEdge::new(a, false), AigEdge::new(b, false), AigEdge::new(c, true)];
    let r = aig.new_and_nodes(edges);
    // two fresh binary AND gates stand behind the result
    assert_eq!(aig.num_nodes(), 6);
    assert_eq!(r.node_id(), 5);
    assert!(!r.compl());
    // a single edge comes back unchanged
    let single = aig.new_and_nodes(vec![AigEdge::new(a, true)]);
    assert_eq!(single, AigEdge::new(a, true));
}

#[test]
fn latches_become_primary_inputs() {
    let mut aig = Aig::from_parts(
        3,
        vec![1],
        vec![AigLatch::new(2, AigEdge::new(1, true), Some(false))],
        vec![AigEdge::new(2, false)],
        Vec::new(),
        Vec::new(),
        Vec::new(),
    )
    .unwrap();
    let (pairs, eq) = aig.transfer_latch_outputs_into_pinputs();
    assert!(aig.latchs.is_empty());
    assert_eq!(pairs.len(), 1);
    assert_eq!(pairs[0].1, 2);
    assert!(aig.nodes[2].is_prime_input());
    assert!(aig.nodes[pairs[0].0].is_prime_input());
    assert!(eq.node_id() < aig.num_nodes());
}

#[test]
fn merging_equivalent_nodes_rewires_fanouts() {
    // inputs 1 and 2; node 3 = and(1, 2); node 4 = and(3, !2);
    // output and bad point at node 3
    let mut aig = Aig::from_parts(
        5,
        vec![1, 2],
        Vec::new(),
        vec![AigEdge::new(3, false)],
        vec![AigEdge::new(3, true)],
        Vec::new(),
        vec![
            (3, AigEdge::new(1, false), AigEdge::new(2, false)),
            (4, AigEdge::new(3, false), AigEdge::new(2, true)),
        ],
    )
    .unwrap();
    // merge node 3 into node 1, with opposite polarity
    aig.merge_fe_node(AigEdge::new(3, false), AigEdge::new(1, true));
    // node 4 now reads !1 instead of 3
    assert_eq!(aig.nodes[4].fanin0(), AigEdge::new(1, true));
    assert_eq!(aig.nodes[4].fanin1(), AigEdge::new(2, true));
    // the interface edges followed, with adjusted polarity
    assert_eq!(aig.outputs[0], AigEdge::new(1, true));
    assert_eq!(aig.bads[0], AigEdge::new(1, false));
    // the replaced node feeds nothing any more
    assert!(aig.nodes[3].fanouts.is_empty());
}
