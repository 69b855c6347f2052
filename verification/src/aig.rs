//! And-inverter graphs.
//!
//! A graph is a vector of nodes; node 0 is the Boolean constant
//! false, the others are primary inputs, latch inputs, or binary AND
//! gates whose fanins point at strictly smaller node indices. An edge
//! names a node and may carry a complement flag. The Boolean meaning
//! of every node under an assignment to the leaves is given by
//! [`node_val`] and [`edge_val`], and the graph-building functions
//! are proved against it.

use crate::lits::{Lit, Var, MAX_VAR};
use vstd::prelude::*;

verus! {

/// An edge of the graph: a node index and a complement flag.
#[derive(Clone, Copy, PartialEq, Eq, Structural, Debug, Hash)]
pub struct AigEdge {
    pub id: usize,
    pub complement: bool,
}

/// A latch: its state node, the edge giving its next-state value,
/// and an optional initial value.
#[derive(Clone, Copy, Debug)]
pub struct AigLatch {
    pub input: usize,
    pub next: AigEdge,
    pub init: Option<bool>,
}

/// What a node is: the constant, a leaf, or an AND gate.
#[derive(Clone, Copy, Debug)]
pub enum AigNodeType {
    False,
    PrimeInput,
    LatchInput,
    And(AigEdge, AigEdge),
}

/// A node: its own index, its depth level, its kind, and the edges
/// of the AND gates it feeds.
#[derive(Clone, Debug)]
pub struct AigNode {
    pub id: usize,
    pub level: usize,
    pub typ: AigNodeType,
    pub fanouts: Vec<AigEdge>,
}

/// The graph together with its interface lists.
#[derive(Clone, Debug)]
pub struct Aig {
    pub nodes: Vec<AigNode>,
    pub inputs: Vec<usize>,
    pub latchs: Vec<AigLatch>,
    pub outputs: Vec<AigEdge>,
    pub bads: Vec<AigEdge>,
    pub constraints: Vec<AigEdge>,
}

impl AigEdge {
    /// The edge denies its node when the flag is set.
    pub open spec fn spec_negate(self) -> AigEdge {
        AigEdge { id: self.id, complement: !self.complement }
    }

    pub fn new(id: usize, complement: bool) -> (e: AigEdge)
        ensures
            e.id == id,
            e.complement == complement,
    {
        AigEdge { id, complement }
    }

    pub fn node_id(&self) -> (r: usize)
        ensures
            r == self.id,
    {
        self.id
    }

    pub fn compl(&self) -> (r: bool)
        ensures
            r == self.complement,
    {
        self.complement
    }

    pub fn set_nodeid(&mut self, nodeid: usize)
        ensures
            final(self).id == nodeid,
            final(self).complement == old(self).complement,
    {
        self.id = nodeid;
    }

    pub fn set_compl(&mut self, compl: bool)
        ensures
            final(self).id == old(self).id,
            final(self).complement == compl,
    {
        self.complement = compl;
    }

    /// Negation: same node, flag flipped.
    pub fn negate(self) -> (e: AigEdge)
        ensures
            e == self.spec_negate(),
            e.spec_negate() == self,
    {
        AigEdge { id: self.id, complement: !self.complement }
    }

    /// Negates exactly when the condition holds.
    pub fn not_if(self, x: bool) -> (e: AigEdge)
        ensures
            e == if x {
                self.spec_negate()
            } else {
                self
            },
    {
        if x {
            self.negate()
        } else {
            self
        }
    }

    /// The edge of node 0 whose value is the given constant.
    pub fn constant_edge(polarity: bool) -> (e: AigEdge)
        ensures
            e.id == 0,
            e.complement == polarity,
    {
        AigEdge { id: 0, complement: polarity }
    }

    /// The edge a literal stands for: positive literals point at the
    /// node plainly, negative ones through a complement.
    pub fn from_lit(lit: Lit) -> (e: AigEdge)
        ensures
            e.id == lit.spec_var().id,
            e.complement == !lit.spec_polarity(),
    {
        let v = lit.var();
        AigEdge { id: v.id as usize, complement: !lit.polarity() }
    }

    /// The literal an edge stands for; inverse of [`AigEdge::from_lit`].
    pub fn to_lit(&self) -> (l: Lit)
        requires
            self.id <= MAX_VAR,
        ensures
            l.spec_var().id == self.id,
            l.spec_polarity() == !self.complement,
    {
        Lit::new(Var { id: self.id as u32 }, !self.complement)
    }
}

impl AigLatch {
    pub fn new(input: usize, next: AigEdge, init: Option<bool>) -> (l: AigLatch)
        ensures
            l.input == input,
            l.next == next,
            l.init == init,
    {
        AigLatch { input, next, init }
    }
}

impl AigNode {
    pub fn node_id(&self) -> (r: usize)
        ensures
            r == self.id,
    {
        self.id
    }

    pub open spec fn spec_is_and(self) -> bool {
        self.typ is And
    }

    pub fn is_and(&self) -> (r: bool)
        ensures
            r == self.spec_is_and(),
    {
        matches!(self.typ, AigNodeType::And(_, _))
    }

    pub fn is_prime_input(&self) -> (r: bool)
        ensures
            r == (self.typ is PrimeInput),
    {
        matches!(self.typ, AigNodeType::PrimeInput)
    }

    pub fn is_latch_input(&self) -> (r: bool)
        ensures
            r == (self.typ is LatchInput),
    {
        matches!(self.typ, AigNodeType::LatchInput)
    }

    /// The first fanin of an AND gate.
    pub open spec fn spec_fanin0(self) -> AigEdge {
        self.typ->And_0
    }

    /// The second fanin of an AND gate.
    pub open spec fn spec_fanin1(self) -> AigEdge {
        self.typ->And_1
    }

    pub fn fanin0(&self) -> (e: AigEdge)
        requires
            self.spec_is_and(),
        ensures
            e == self.spec_fanin0(),
    {
        match self.typ {
            AigNodeType::And(ret, _) => ret,
            _ => {
                proof {
                    assert(false);
                }
                AigEdge { id: 0, complement: false }
            },
        }
    }

    pub fn fanin1(&self) -> (e: AigEdge)
        requires
            self.spec_is_and(),
        ensures
            e == self.spec_fanin1(),
    {
        match self.typ {
            AigNodeType::And(_, ret) => ret,
            _ => {
                proof {
                    assert(false);
                }
                AigEdge { id: 0, complement: false }
            },
        }
    }

    pub fn set_fanin0(&mut self, fanin: AigEdge)
        requires
            old(self).spec_is_and(),
        ensures
            final(self).typ == AigNodeType::And(fanin, old(self).spec_fanin1()),
            final(self).id == old(self).id,
            final(self).level == old(self).level,
            final(self).fanouts == old(self).fanouts,
    {
        match self.typ {
            AigNodeType::And(_, fanin1) => {
                self.typ = AigNodeType::And(fanin, fanin1);
            },
            _ => {
                proof {
                    assert(false);
                }
            },
        }
    }

    pub fn set_fanin1(&mut self, fanin: AigEdge)
        requires
            old(self).spec_is_and(),
        ensures
            final(self).typ == AigNodeType::And(old(self).spec_fanin0(), fanin),
            final(self).id == old(self).id,
            final(self).level == old(self).level,
            final(self).fanouts == old(self).fanouts,
    {
        match self.typ {
            AigNodeType::And(fanin0, _) => {
                self.typ = AigNodeType::And(fanin0, fanin);
            },
            _ => {
                proof {
                    assert(false);
                }
            },
        }
    }

    pub(crate) fn new_false(id: usize) -> (n: AigNode)
        ensures
            n.id == id,
            n.typ is False,
            n.level == 0,
            n.fanouts@.len() == 0,
    {
        AigNode { id, typ: AigNodeType::False, fanouts: Vec::new(), level: 0 }
    }

    pub(crate) fn new_prime_input(id: usize) -> (n: AigNode)
        ensures
            n.id == id,
            n.typ is PrimeInput,
            n.level == 0,
            n.fanouts@.len() == 0,
    {
        AigNode { id, typ: AigNodeType::PrimeInput, fanouts: Vec::new(), level: 0 }
    }

    pub(crate) fn new_latch_input(id: usize) -> (n: AigNode)
        ensures
            n.id == id,
            n.typ is LatchInput,
            n.level == 0,
            n.fanouts@.len() == 0,
    {
        AigNode { id, typ: AigNodeType::LatchInput, fanouts: Vec::new(), level: 0 }
    }

    /// A fresh AND gate; the fanins are put in ascending node order.
    pub(crate) fn new_and(id: usize, fanin0: AigEdge, fanin1: AigEdge, level: usize) -> (n:
        AigNode)
        ensures
            n.id == id,
            n.level == level,
            n.fanouts@.len() == 0,
            n.typ == if fanin0.id > fanin1.id {
                AigNodeType::And(fanin1, fanin0)
            } else {
                AigNodeType::And(fanin0, fanin1)
            },
            n.spec_is_and(),
            n.spec_fanin0().id <= n.spec_fanin1().id,
    {
        let (fanin0, fanin1) = if fanin0.id > fanin1.id {
            (fanin1, fanin0)
        } else {
            (fanin0, fanin1)
        };
        AigNode { id, typ: AigNodeType::And(fanin0, fanin1), fanouts: Vec::new(), level }
    }
}

/// Structural well-formedness of the node vector: node 0 is the
/// constant, every node knows its own index, AND fanins point at
/// strictly smaller nodes in ascending order, and levels are bounded
/// by the index.
pub open spec fn nodes_wf(nodes: Seq<AigNode>) -> bool {
    &&& nodes.len() >= 1
    &&& nodes[0].typ is False
    &&& forall|i: int| 0 <= i < nodes.len() ==> (#[trigger] nodes[i]).id == i
    &&& forall|i: int|
        0 <= i < nodes.len() && (#[trigger] nodes[i]).spec_is_and() ==> {
            &&& nodes[i].spec_fanin0().id <= nodes[i].spec_fanin1().id
            &&& nodes[i].spec_fanin1().id < i
        }
    &&& forall|i: int| 0 <= i < nodes.len() ==> (#[trigger] nodes[i]).level <= i
}

/// The Boolean value of a node under an assignment of the leaves.
/// `leaf[i]` supplies the value of input and latch node `i`; the
/// constant node is false and a gate is the conjunction of its
/// fanins.
pub open spec fn node_val(nodes: Seq<AigNode>, leaf: Seq<bool>, i: int) -> bool
    decreases i,
{
    if 0 <= i < nodes.len() {
        match nodes[i].typ {
            AigNodeType::False => false,
            AigNodeType::PrimeInput => leaf[i],
            AigNodeType::LatchInput => leaf[i],
            AigNodeType::And(a, b) => {
                if a.id < i && b.id < i {
                    (node_val(nodes, leaf, a.id as int) != a.complement) && (node_val(
                        nodes,
                        leaf,
                        b.id as int,
                    ) != b.complement)
                } else {
                    arbitrary()
                }
            },
        }
    } else {
        arbitrary()
    }
}

/// The Boolean value of an edge: the node's value, complemented when
/// the edge says so.
pub open spec fn edge_val(nodes: Seq<AigNode>, leaf: Seq<bool>, e: AigEdge) -> bool {
    node_val(nodes, leaf, e.id as int) != e.complement
}

/// A node's value only looks at the kinds of the nodes at and below
/// it: growing the vector, rewriting nodes above, or touching fanout
/// lists and levels changes nothing.
pub proof fn lemma_node_val_prefix(
    nodes1: Seq<AigNode>,
    nodes2: Seq<AigNode>,
    leaf: Seq<bool>,
    i: int,
)
    requires
        0 <= i < nodes1.len(),
        nodes1.len() <= nodes2.len(),
        forall|k: int| 0 <= k <= i ==> (#[trigger] nodes2[k]).typ == nodes1[k].typ,
        nodes_wf(nodes1),
    ensures
        node_val(nodes1, leaf, i) == node_val(nodes2, leaf, i),
    decreases i,
{
    match nodes1[i].typ {
        AigNodeType::And(a, b) => {
            lemma_node_val_prefix(nodes1, nodes2, leaf, a.id as int);
            lemma_node_val_prefix(nodes1, nodes2, leaf, b.id as int);
        },
        _ => {},
    }
}

/// Whatever a well-formed graph gains on top, the meaning of what it
/// already held stays: the relation every graph-building function
/// keeps to the graph it started from.
pub open spec fn grows_from(old_nodes: Seq<AigNode>, new_nodes: Seq<AigNode>) -> bool {
    &&& old_nodes.len() <= new_nodes.len()
    &&& forall|k: int|
        0 <= k < old_nodes.len() ==> (#[trigger] new_nodes[k]).typ == old_nodes[k].typ
            && new_nodes[k].id == old_nodes[k].id && new_nodes[k].level == old_nodes[k].level
            && old_nodes[k].fanouts@.is_prefix_of(new_nodes[k].fanouts@)
}

/// Growing a graph keeps the value of every edge it already held.
pub proof fn lemma_edge_val_grows(
    old_nodes: Seq<AigNode>,
    new_nodes: Seq<AigNode>,
    leaf: Seq<bool>,
    e: AigEdge,
)
    requires
        nodes_wf(old_nodes),
        grows_from(old_nodes, new_nodes),
        e.id < old_nodes.len(),
    ensures
        edge_val(new_nodes, leaf, e) == edge_val(old_nodes, leaf, e),
{
    lemma_node_val_prefix(old_nodes, new_nodes, leaf, e.id as int);
}

impl Aig {
    /// Structural well-formedness: the node vector is well formed
    /// and every interface edge or index points into it.
    pub open spec fn wf(self) -> bool {
        &&& nodes_wf(self.nodes@)
        &&& forall|i: int|
            0 <= i < self.inputs@.len() ==> (#[trigger] self.inputs@[i]) < self.nodes@.len()
        &&& forall|i: int|
            0 <= i < self.latchs@.len() ==> (#[trigger] self.latchs@[i]).input
                < self.nodes@.len() && self.latchs@[i].next.id < self.nodes@.len()
        &&& forall|i: int|
            0 <= i < self.outputs@.len() ==> (#[trigger] self.outputs@[i]).id
                < self.nodes@.len()
        &&& forall|i: int|
            0 <= i < self.bads@.len() ==> (#[trigger] self.bads@[i]).id < self.nodes@.len()
        &&& forall|i: int|
            0 <= i < self.constraints@.len() ==> (#[trigger] self.constraints@[i]).id
                < self.nodes@.len()
    }

    /// The empty graph: only the constant-false node.
    pub fn new() -> (aig: Aig)
        ensures
            aig.wf(),
            aig.nodes@.len() == 1,
            aig.inputs@.len() == 0,
            aig.latchs@.len() == 0,
            aig.outputs@.len() == 0,
            aig.bads@.len() == 0,
            aig.constraints@.len() == 0,
    {
        let nodes = vec![AigNode::new_false(0)];
        Aig {
            nodes,
            inputs: Vec::new(),
            latchs: Vec::new(),
            outputs: Vec::new(),
            bads: Vec::new(),
            constraints: Vec::new(),
        }
    }

    pub fn num_nodes(&self) -> (n: usize)
        ensures
            n == self.nodes@.len(),
    {
        self.nodes.len()
    }

    /// The indices of the real nodes, the constant left out.
    pub fn nodes_range(&self) -> (r: std::ops::Range<usize>)
        ensures
            r.start == 1,
            r.end == self.nodes@.len(),
    {
        1..self.nodes.len()
    }

    /// The indices of all nodes, the constant included.
    pub fn nodes_range_with_false(&self) -> (r: std::ops::Range<usize>)
        ensures
            r.start == 0,
            r.end == self.nodes@.len(),
    {
        0..self.nodes.len()
    }

    /// The indices of the AND gates, ascending.
    pub fn ands_iter(&self) -> (r: Vec<usize>)
        ensures
            forall|k: int|
                0 <= k < r@.len() ==> (#[trigger] r@[k]) < self.nodes@.len()
                    && self.nodes@[r@[k] as int].spec_is_and(),
            forall|i: int|
                0 <= i < self.nodes@.len() && (#[trigger] self.nodes@[i]).spec_is_and()
                    ==> r@.contains(i as usize),
            forall|a: int, b: int| 0 <= a < b < r@.len() ==> r@[a] < r@[b],
    {
        let mut r: Vec<usize> = Vec::new();
        let n = self.nodes.len();
        for i in 0..n
            invariant
                n == self.nodes@.len(),
                forall|k: int|
                    0 <= k < r@.len() ==> (#[trigger] r@[k]) < i
                        && self.nodes@[r@[k] as int].spec_is_and(),
                forall|j: int|
                    0 <= j < i && (#[trigger] self.nodes@[j]).spec_is_and() ==> r@.contains(
                        j as usize),
                forall|a: int, b: int| 0 <= a < b < r@.len() ==> r@[a] < r@[b],
        {
            if self.nodes[i].is_and() {
                let ghost prev = r@;
                r.push(i);
                proof {
                    assert forall|j: int|
                        0 <= j < i + 1 && (#[trigger] self.nodes@[j]).spec_is_and()
                            implies r@.contains(j as usize) by {
                        if j < i {
                            let k = choose|k: int| 0 <= k < prev.len() && prev[k] == j as usize;
                            assert(r@[k] == j as usize);
                        } else {
                            assert(r@[prev.len() as int] == i as usize);
                        }
                    }
                }
            }
        }
        r
    }

    /// Adds a fresh primary-input node and returns its index.
    pub fn new_input_node(&mut self) -> (id: usize)
        requires
            old(self).wf(),
        ensures
            final(self).wf(),
            grows_from(old(self).nodes@, final(self).nodes@),
            id == old(self).nodes@.len(),
            final(self).nodes@.len() == old(self).nodes@.len() + 1,
            final(self).nodes@[id as int].typ is PrimeInput,
            final(self).inputs@ == old(self).inputs@.push(id),
            final(self).latchs == old(self).latchs,
            final(self).outputs == old(self).outputs,
            final(self).bads == old(self).bads,
            final(self).constraints == old(self).constraints,
    {
        let nodeid = self.nodes.len();
        let input = AigNode::new_prime_input(nodeid);
        self.nodes.push(input);
        self.inputs.push(nodeid);
        nodeid
    }
}


impl Aig {
    /// Records that the node at `idx` now feeds the AND edge `e`.
    fn push_fanout(&mut self, idx: usize, e: AigEdge)
        requires
            old(self).wf(),
            idx < old(self).nodes@.len(),
        ensures
            final(self).wf(),
            grows_from(old(self).nodes@, final(self).nodes@),
            final(self).nodes@.len() == old(self).nodes@.len(),
            final(self).nodes@ == old(self).nodes@.update(
                idx as int,
                AigNode {
                    fanouts: final(self).nodes@[idx as int].fanouts,
                    ..old(self).nodes@[idx as int]
                },
            ),
            final(self).nodes@[idx as int].fanouts@ == old(self).nodes@[idx
                as int].fanouts@.push(e),
            final(self).inputs == old(self).inputs,
            final(self).latchs == old(self).latchs,
            final(self).outputs == old(self).outputs,
            final(self).bads == old(self).bads,
            final(self).constraints == old(self).constraints,
    {
        self.nodes[idx].fanouts.push(e);
        proof {
            assert(final(self).nodes@ =~= old(self).nodes@.update(
                idx as int,
                AigNode {
                    fanouts: final(self).nodes@[idx as int].fanouts,
                    ..old(self).nodes@[idx as int]
                },
            ));
        }
    }

    /// The conjunction of two edges. Constant and duplicate fanins
    /// are folded away; otherwise a gate is added, and either way the
    /// returned edge means exactly the conjunction.
    pub fn new_and_node(&mut self, fanin0: AigEdge, fanin1: AigEdge) -> (r: AigEdge)
        requires
            old(self).wf(),
            fanin0.id < old(self).nodes@.len(),
            fanin1.id < old(self).nodes@.len(),
        ensures
            final(self).wf(),
            grows_from(old(self).nodes@, final(self).nodes@),
            old(self).nodes@.len() <= final(self).nodes@.len() <= old(self).nodes@.len() + 1,
            r.id < final(self).nodes@.len(),
            forall|leaf: Seq<bool>|
                #[trigger] edge_val(final(self).nodes@, leaf, r) == (edge_val(
                    old(self).nodes@,
                    leaf,
                    fanin0,
                ) && edge_val(old(self).nodes@, leaf, fanin1)),
            final(self).inputs == old(self).inputs,
            final(self).latchs == old(self).latchs,
            final(self).outputs == old(self).outputs,
            final(self).bads == old(self).bads,
            final(self).constraints == old(self).constraints,
            ({
                let a = if fanin0.id > fanin1.id {
                    fanin1
                } else {
                    fanin0
                };
                let b = if fanin0.id > fanin1.id {
                    fanin0
                } else {
                    fanin1
                };
                let ct = AigEdge { id: 0, complement: true };
                let cf = AigEdge { id: 0, complement: false };
                if a == ct {
                    r == b && final(self).nodes@ == old(self).nodes@
                } else if a == cf {
                    r == cf && final(self).nodes@ == old(self).nodes@
                } else if b == ct {
                    r == a && final(self).nodes@ == old(self).nodes@
                } else if b == cf {
                    r == cf && final(self).nodes@ == old(self).nodes@
                } else if a == b {
                    r == a && final(self).nodes@ == old(self).nodes@
                } else if a == b.spec_negate() {
                    r == cf && final(self).nodes@ == old(self).nodes@
                } else {
                    &&& final(self).nodes@.len() == old(self).nodes@.len() + 1
                    &&& r == (AigEdge {
                        id: old(self).nodes@.len() as usize,
                        complement: false,
                    })
                    &&& final(self).nodes@.last().typ == AigNodeType::And(a, b)
                    &&& final(self).nodes@[a.id as int].fanouts@ == old(self).nodes@[a.id
                        as int].fanouts@.push(AigEdge { id: r.id, complement: a.complement })
                    &&& final(self).nodes@[b.id as int].fanouts@ == old(self).nodes@[b.id
                        as int].fanouts@.push(AigEdge { id: r.id, complement: b.complement })
                    &&& (forall|k: int|
                        0 <= k < old(self).nodes@.len() && k != a.id && k != b.id
                            ==> #[trigger] final(self).nodes@[k] == old(self).nodes@[k])
                }
            }),
    {
        let (a, b) = if fanin0.node_id() > fanin1.node_id() {
            (fanin1, fanin0)
        } else {
            (fanin0, fanin1)
        };
        let ct = AigEdge::constant_edge(true);
        let cf = AigEdge::constant_edge(false);
        proof {
            assert forall|leaf: Seq<bool>| !edge_val(self.nodes@, leaf, cf) && edge_val(
                self.nodes@,
                leaf,
                ct,
            ) by {
                assert(node_val(self.nodes@, leaf, 0) == false);
            }
        }
        if a.id == ct.id && a.complement == ct.complement {
            return b;
        }
        if a.id == cf.id && a.complement == cf.complement {
            return cf;
        }
        if b.id == ct.id && b.complement == ct.complement {
            return a;
        }
        if b.id == cf.id && b.complement == cf.complement {
            return cf;
        }
        if a.id == b.id && a.complement == b.complement {
            return a;
        }
        if a.id == b.id && a.complement != b.complement {
            return cf;
        }
        let nodeid = self.nodes.len();
        let la = self.nodes[a.node_id()].level;
        let lb = self.nodes[b.node_id()].level;
        let level = if la > lb {
            la
        } else {
            lb
        };
        let and = AigNode::new_and(nodeid, a, b, level + 1);
        let ghost nodes0 = self.nodes@;
        self.nodes.push(and);
        proof {
            assert forall|i: int|
                0 <= i < self.nodes@.len() && (#[trigger] self.nodes@[i]).spec_is_and()
                    implies {
                    &&& self.nodes@[i].spec_fanin0().id <= self.nodes@[i].spec_fanin1().id
                    &&& self.nodes@[i].spec_fanin1().id < i
                } by {
                if i < nodes0.len() {
                    assert(nodes0[i].spec_is_and());
                }
            }
            assert(self.wf());
        }
        let ghost nodes1 = self.nodes@;
        self.push_fanout(a.node_id(), AigEdge::new(nodeid, a.compl()));
        let ghost nodes2 = self.nodes@;
        self.push_fanout(b.node_id(), AigEdge::new(nodeid, b.compl()));
        let r = AigEdge::new(nodeid, false);
        proof {
            let nodes3 = self.nodes@;
            assert(grows_from(nodes0, nodes3));
            assert forall|leaf: Seq<bool>|
                #[trigger] edge_val(nodes3, leaf, r) == (edge_val(nodes0, leaf, fanin0)
                    && edge_val(nodes0, leaf, fanin1)) by {
                assert(nodes3[nodeid as int].typ == AigNodeType::And(a, b));
                assert(node_val(nodes3, leaf, nodeid as int) == (edge_val(nodes3, leaf, a)
                    && edge_val(nodes3, leaf, b)));
                lemma_edge_val_grows(nodes0, nodes3, leaf, a);
                lemma_edge_val_grows(nodes0, nodes3, leaf, b);
            }
            assert(a.id != b.id);
            assert(nodes3[a.id as int].fanouts@ == nodes0[a.id as int].fanouts@.push(
                AigEdge { id: nodeid, complement: a.complement },
            ));
            assert(nodes3[b.id as int].fanouts@ == nodes0[b.id as int].fanouts@.push(
                AigEdge { id: nodeid, complement: b.complement },
            ));
            assert forall|k: int|
                0 <= k < nodes0.len() && k != a.id && k != b.id implies #[trigger] nodes3[k]
                == nodes0[k] by {}
        }
        r
    }

    /// The disjunction of two edges, by De Morgan on a fresh gate.
    pub fn new_or_node(&mut self, fanin0: AigEdge, fanin1: AigEdge) -> (r: AigEdge)
        requires
            old(self).wf(),
            fanin0.id < old(self).nodes@.len(),
            fanin1.id < old(self).nodes@.len(),
        ensures
            final(self).wf(),
            grows_from(old(self).nodes@, final(self).nodes@),
            r.id < final(self).nodes@.len(),
            forall|leaf: Seq<bool>|
                #[trigger] edge_val(final(self).nodes@, leaf, r) == (edge_val(
                    old(self).nodes@,
                    leaf,
                    fanin0,
                ) || edge_val(old(self).nodes@, leaf, fanin1)),
            final(self).inputs == old(self).inputs,
            final(self).latchs == old(self).latchs,
            final(self).outputs == old(self).outputs,
            final(self).bads == old(self).bads,
            final(self).constraints == old(self).constraints,
    {
        let ghost nodes0 = self.nodes@;
        let e = self.new_and_node(fanin0.negate(), fanin1.negate());
        let r = e.negate();
        proof {
            let nodes1 = self.nodes@;
            assert forall|leaf: Seq<bool>|
                #[trigger] edge_val(nodes1, leaf, r) == (edge_val(nodes0, leaf, fanin0)
                    || edge_val(nodes0, leaf, fanin1)) by {
                assert(edge_val(nodes1, leaf, e) == (edge_val(nodes0, leaf, fanin0.spec_negate())
                    && edge_val(nodes0, leaf, fanin1.spec_negate())));
            }
        }
        r
    }

    /// An edge true exactly when the two fanins agree.
    pub fn new_equal_node(&mut self, fanin0: AigEdge, fanin1: AigEdge) -> (r: AigEdge)
        requires
            old(self).wf(),
            fanin0.id < old(self).nodes@.len(),
            fanin1.id < old(self).nodes@.len(),
        ensures
            final(self).wf(),
            grows_from(old(self).nodes@, final(self).nodes@),
            r.id < final(self).nodes@.len(),
            forall|leaf: Seq<bool>|
                #[trigger] edge_val(final(self).nodes@, leaf, r) == (edge_val(
                    old(self).nodes@,
                    leaf,
                    fanin0,
                ) == edge_val(old(self).nodes@, leaf, fanin1)),
            final(self).inputs == old(self).inputs,
            final(self).latchs == old(self).latchs,
            final(self).outputs == old(self).outputs,
            final(self).bads == old(self).bads,
            final(self).constraints == old(self).constraints,
    {
        let ghost nodes0 = self.nodes@;
        let node1 = self.new_and_node(fanin0, fanin1.negate());
        let ghost nodes1 = self.nodes@;
        let node2 = self.new_and_node(fanin0.negate(), fanin1);
        let ghost nodes2 = self.nodes@;
        let r = self.new_and_node(node1.negate(), node2.negate());
        proof {
            let nodes3 = self.nodes@;
            assert forall|leaf: Seq<bool>|
                #[trigger] edge_val(nodes3, leaf, r) == (edge_val(nodes0, leaf, fanin0)
                    == edge_val(nodes0, leaf, fanin1)) by {
                assert(edge_val(nodes1, leaf, node1) == (edge_val(nodes0, leaf, fanin0)
                    && edge_val(nodes0, leaf, fanin1.spec_negate())));
                assert(edge_val(nodes2, leaf, node2) == (edge_val(
                    nodes1,
                    leaf,
                    fanin0.spec_negate(),
                ) && edge_val(nodes1, leaf, fanin1)));
                assert(edge_val(nodes3, leaf, r) == (edge_val(
                    nodes2,
                    leaf,
                    node1.spec_negate(),
                ) && edge_val(nodes2, leaf, node2.spec_negate())));
                lemma_edge_val_grows(nodes1, nodes2, leaf, node1);
                lemma_edge_val_grows(nodes0, nodes1, leaf, fanin0);
                lemma_edge_val_grows(nodes0, nodes1, leaf, fanin1);
            }
        }
        r
    }
}


/// Whether an edge list names the node directly.
pub open spec fn logic_hits(logic: Seq<AigEdge>, i: int) -> bool {
    exists|k: int| 0 <= k < logic.len() && (#[trigger] logic[k]).id == i
}

/// One step of the cone computation at node `id`: a flagged gate
/// flags its fanins.
pub open spec fn cone_step(nodes: Seq<AigNode>, flags: Seq<bool>, id: int) -> Seq<bool> {
    if 0 <= id < nodes.len() && 0 <= id < flags.len() && flags[id]
        && nodes[id].spec_is_and() && nodes[id].spec_fanin0().id < flags.len()
        && nodes[id].spec_fanin1().id < flags.len() {
        flags.update(nodes[id].spec_fanin0().id as int, true).update(
            nodes[id].spec_fanin1().id as int,
            true,
        )
    } else {
        flags
    }
}

/// The cone flags after the descending pass has handled every node
/// from the top of the graph down to `m`: it starts from the nodes
/// the edge list names and closes downward through the gates, so
/// entry `i` of `cone_from(nodes, logic, 0)` says whether node `i`
/// feeds one of the listed edges.
pub open spec fn cone_from(nodes: Seq<AigNode>, logic: Seq<AigEdge>, m: int) -> Seq<bool>
    decreases nodes.len() - m,
{
    if m >= nodes.len() || m < 0 {
        Seq::new(nodes.len(), |i: int| logic_hits(logic, i))
    } else {
        cone_step(nodes, cone_from(nodes, logic, m + 1), m)
    }
}

/// Membership in the fanin logic cone of an edge list.
pub open spec fn in_cone(nodes: Seq<AigNode>, logic: Seq<AigEdge>, i: int) -> bool {
    0 <= i < nodes.len() && cone_from(nodes, logic, 0)[i]
}

/// Every stage of the cone computation keeps the flag vector's
/// length.
pub proof fn lemma_cone_from_len(nodes: Seq<AigNode>, logic: Seq<AigEdge>, m: int)
    ensures
        cone_from(nodes, logic, m).len() == nodes.len(),
    decreases nodes.len() - m,
{
    if !(m >= nodes.len() || m < 0) {
        lemma_cone_from_len(nodes, logic, m + 1);
    }
}


impl Aig {
    /// Recomputes every node's level: leaves sit at 0 and a gate one
    /// above its deepest fanin.
    pub fn setup_levels(&mut self)
        requires
            old(self).wf(),
        ensures
            final(self).wf(),
            final(self).nodes@.len() == old(self).nodes@.len(),
            forall|i: int|
                0 <= i < final(self).nodes@.len() ==> {
                    let n = #[trigger] final(self).nodes@[i];
                    let o = old(self).nodes@[i];
                    &&& n.id == o.id
                    &&& n.typ == o.typ
                    &&& n.fanouts == o.fanouts
                    &&& (o.spec_is_and() ==> n.level == 1 + if final(self).nodes@[o.spec_fanin0().id as int].level
                        > final(self).nodes@[o.spec_fanin1().id as int].level {
                        final(self).nodes@[o.spec_fanin0().id as int].level
                    } else {
                        final(self).nodes@[o.spec_fanin1().id as int].level
                    })
                    &&& (!o.spec_is_and() ==> n.level == 0)
                },
            final(self).inputs == old(self).inputs,
            final(self).latchs == old(self).latchs,
            final(self).outputs == old(self).outputs,
            final(self).bads == old(self).bads,
            final(self).constraints == old(self).constraints,
    {
        let n = self.nodes.len();
        let mut i: usize = 0;
        while i < n
            invariant
                n == self.nodes@.len() == old(self).nodes@.len(),
                i <= n,
                old(self).wf(),
                self.inputs == old(self).inputs,
                self.latchs == old(self).latchs,
                self.outputs == old(self).outputs,
                self.bads == old(self).bads,
                self.constraints == old(self).constraints,
                forall|q: int|
                    0 <= q < n ==> {
                        let nd = #[trigger] self.nodes@[q];
                        let o = old(self).nodes@[q];
                        nd.id == o.id && nd.typ == o.typ && nd.fanouts == o.fanouts
                    },
                forall|q: int| i <= q < n ==> (#[trigger] self.nodes@[q]).level == old(self).nodes@[q].level,
                forall|q: int|
                    0 <= q < i ==> {
                        let nd = #[trigger] self.nodes@[q];
                        let o = old(self).nodes@[q];
                        &&& (o.spec_is_and() ==> nd.level == 1 + if self.nodes@[o.spec_fanin0().id as int].level
                            > self.nodes@[o.spec_fanin1().id as int].level {
                            self.nodes@[o.spec_fanin0().id as int].level
                        } else {
                            self.nodes@[o.spec_fanin1().id as int].level
                        })
                        &&& (!o.spec_is_and() ==> nd.level == 0)
                    },
                forall|q: int| 0 <= q < i ==> (#[trigger] self.nodes@[q]).level <= q,
            decreases n - i,
        {
            let node = &self.nodes[i];
            let new_level: usize;
            if node.is_and() {
                let f0 = node.fanin0().node_id();
                let f1 = node.fanin1().node_id();
                let l0 = self.nodes[f0].level;
                let l1 = self.nodes[f1].level;
                new_level = 1 + if l0 > l1 {
                    l0
                } else {
                    l1
                };
            } else {
                new_level = 0;
            }
            let ghost pre = self.nodes@;
            self.nodes[i].level = new_level;
            proof {
                assert(self.nodes@[i as int].typ == pre[i as int].typ);
                assert forall|q: int|
                    0 <= q < i + 1 implies (#[trigger] self.nodes@[q]).level <= q by {
                    if q < i {
                        assert(self.nodes@[q] == pre[q]);
                    }
                }
            }
            i += 1;
        }
    }
}


/// What the AND gate at `i` contributes to the fanout list of node
/// `v`: one edge per fanin that points at `v`, first fanin first.
pub open spec fn gate_fanout_entries(nodes: Seq<AigNode>, i: int, v: int) -> Seq<AigEdge> {
    if 0 <= i < nodes.len() && nodes[i].spec_is_and() {
        let e0: Seq<AigEdge> = if nodes[i].spec_fanin0().id == v {
            seq![AigEdge { id: i as usize, complement: nodes[i].spec_fanin0().complement }]
        } else {
            Seq::empty()
        };
        let e1: Seq<AigEdge> = if nodes[i].spec_fanin1().id == v {
            seq![AigEdge { id: i as usize, complement: nodes[i].spec_fanin1().complement }]
        } else {
            Seq::empty()
        };
        e0 + e1
    } else {
        Seq::empty()
    }
}

/// The fanout entries node `v` gathers from the gates below `m`, in
/// ascending gate order.
pub open spec fn fanouts_upto(nodes: Seq<AigNode>, v: int, m: int) -> Seq<AigEdge>
    decreases m,
{
    if m <= 0 {
        Seq::empty()
    } else {
        fanouts_upto(nodes, v, m - 1) + gate_fanout_entries(nodes, m - 1, v)
    }
}

impl Aig {
    /// Fills every node's fanout list: each AND gate announces
    /// itself to both fanins, gates in ascending order.
    pub fn setup_fanouts(&mut self)
        requires
            old(self).wf(),
        ensures
            final(self).wf(),
            final(self).nodes@.len() == old(self).nodes@.len(),
            forall|v: int|
                0 <= v < final(self).nodes@.len() ==> {
                    let n = #[trigger] final(self).nodes@[v];
                    let o = old(self).nodes@[v];
                    &&& n.id == o.id
                    &&& n.typ == o.typ
                    &&& n.level == o.level
                    &&& n.fanouts@ == o.fanouts@ + fanouts_upto(
                        old(self).nodes@,
                        v,
                        old(self).nodes@.len() as int,
                    )
                },
            final(self).inputs == old(self).inputs,
            final(self).latchs == old(self).latchs,
            final(self).outputs == old(self).outputs,
            final(self).bads == old(self).bads,
            final(self).constraints == old(self).constraints,
    {
        let n = self.nodes.len();
        proof {
            assert forall|v: int|
                0 <= v < n implies (#[trigger] self.nodes@[v]).fanouts@ == old(
                self,
            ).nodes@[v].fanouts@ + fanouts_upto(old(self).nodes@, v, 0) by {
                assert(self.nodes@[v].fanouts@ =~= self.nodes@[v].fanouts@
                    + Seq::<AigEdge>::empty());
            }
        }
        let mut i: usize = 0;
        while i < n
            invariant
                n == self.nodes@.len() == old(self).nodes@.len(),
                i <= n,
                old(self).wf(),
                self.inputs == old(self).inputs,
                self.latchs == old(self).latchs,
                self.outputs == old(self).outputs,
                self.bads == old(self).bads,
                self.constraints == old(self).constraints,
                forall|v: int|
                    0 <= v < n ==> {
                        let nd = #[trigger] self.nodes@[v];
                        let o = old(self).nodes@[v];
                        nd.id == o.id && nd.typ == o.typ && nd.level == o.level
                    },
                forall|v: int|
                    0 <= v < n ==> (#[trigger] self.nodes@[v]).fanouts@ == old(
                        self,
                    ).nodes@[v].fanouts@ + fanouts_upto(old(self).nodes@, v, i as int),
            decreases n - i,
        {
            let ghost onodes = old(self).nodes@;
            if self.nodes[i].is_and() {
                let f0 = self.nodes[i].fanin0();
                let f1 = self.nodes[i].fanin1();
                let ghost pre = self.nodes@;
                self.nodes[f0.node_id()].fanouts.push(AigEdge::new(i, f0.compl()));
                let ghost mid = self.nodes@;
                self.nodes[f1.node_id()].fanouts.push(AigEdge::new(i, f1.compl()));
                proof {
                    assert(onodes[i as int].spec_is_and());
                    assert(onodes[i as int].spec_fanin0() == f0);
                    assert(onodes[i as int].spec_fanin1() == f1);
                    assert forall|v: int|
                        0 <= v < n implies (#[trigger] self.nodes@[v]).fanouts@
                        == onodes[v].fanouts@ + fanouts_upto(onodes, v, i + 1) by {
                        let entries = gate_fanout_entries(onodes, i as int, v);
                        assert(fanouts_upto(onodes, v, i + 1) == fanouts_upto(onodes, v, i as int)
                            + entries);
                        if v == f0.id && v == f1.id {
                            assert(entries =~= seq![
                                AigEdge { id: i, complement: f0.complement },
                                AigEdge { id: i, complement: f1.complement },
                            ]);
                            assert(self.nodes@[v].fanouts@ =~= pre[v].fanouts@.push(
                                AigEdge { id: i, complement: f0.complement },
                            ).push(AigEdge { id: i, complement: f1.complement }));
                            assert(self.nodes@[v].fanouts@ =~= onodes[v].fanouts@
                                + fanouts_upto(onodes, v, i as int) + entries);
                            assert(onodes[v].fanouts@ + fanouts_upto(onodes, v, i as int)
                                + entries =~= onodes[v].fanouts@ + (fanouts_upto(
                                onodes,
                                v,
                                i as int,
                            ) + entries));
                        } else if v == f0.id {
                            assert(entries =~= seq![
                                AigEdge { id: i, complement: f0.complement },
                            ]);
                            assert(self.nodes@[v].fanouts@ =~= pre[v].fanouts@.push(
                                AigEdge { id: i, complement: f0.complement },
                            ));
                            assert(self.nodes@[v].fanouts@ =~= onodes[v].fanouts@
                                + (fanouts_upto(onodes, v, i as int) + entries));
                        } else if v == f1.id {
                            assert(entries =~= seq![
                                AigEdge { id: i, complement: f1.complement },
                            ]);
                            assert(self.nodes@[v].fanouts@ =~= mid[v].fanouts@.push(
                                AigEdge { id: i, complement: f1.complement },
                            ));
                            assert(mid[v].fanouts@ == pre[v].fanouts@);
                            assert(self.nodes@[v].fanouts@ =~= onodes[v].fanouts@
                                + (fanouts_upto(onodes, v, i as int) + entries));
                        } else {
                            assert(entries =~= Seq::<AigEdge>::empty());
                            assert(self.nodes@[v].fanouts@ == pre[v].fanouts@);
                            assert(fanouts_upto(onodes, v, i + 1) =~= fanouts_upto(
                                onodes,
                                v,
                                i as int,
                            ));
                        }
                    }
                }
            } else {
                proof {
                    assert forall|v: int|
                        0 <= v < n implies (#[trigger] self.nodes@[v]).fanouts@
                        == onodes[v].fanouts@ + fanouts_upto(onodes, v, i + 1) by {
                        assert(gate_fanout_entries(onodes, i as int, v)
                            =~= Seq::<AigEdge>::empty());
                        assert(fanouts_upto(onodes, v, i + 1) =~= fanouts_upto(
                            onodes,
                            v,
                            i as int,
                        ));
                    }
                }
            }
            i += 1;
        }
    }
}


/// Claims slot `id` of the kind map for a node of kind `t`: fails
/// when the slot is out of range, reserved, or already claimed.
pub open spec fn claim_slot(
    m: Seq<Option<AigNodeType>>,
    id: int,
    t: AigNodeType,
) -> Option<Seq<Option<AigNodeType>>> {
    if 1 <= id < m.len() && m[id] is None {
        Some(m.update(id, Some(t)))
    } else {
        None
    }
}

/// Claims one slot per listed input node.
pub open spec fn claim_inputs(
    m: Option<Seq<Option<AigNodeType>>>,
    inputs: Seq<usize>,
) -> Option<Seq<Option<AigNodeType>>>
    decreases inputs.len(),
{
    if inputs.len() == 0 {
        m
    } else {
        match claim_inputs(m, inputs.drop_last()) {
            None => None,
            Some(m2) => claim_slot(m2, inputs.last() as int, AigNodeType::PrimeInput),
        }
    }
}

/// Claims one slot per latch state node.
pub open spec fn claim_latchs(
    m: Option<Seq<Option<AigNodeType>>>,
    latchs: Seq<AigLatch>,
) -> Option<Seq<Option<AigNodeType>>>
    decreases latchs.len(),
{
    if latchs.len() == 0 {
        m
    } else {
        match claim_latchs(m, latchs.drop_last()) {
            None => None,
            Some(m2) => claim_slot(m2, latchs.last().input as int, AigNodeType::LatchInput),
        }
    }
}

/// Claims one slot per AND gate, fanins put in ascending order;
/// fails when a fanin does not point strictly below its own node.
pub open spec fn claim_ands(
    m: Option<Seq<Option<AigNodeType>>>,
    ands: Seq<(usize, AigEdge, AigEdge)>,
) -> Option<Seq<Option<AigNodeType>>>
    decreases ands.len(),
{
    if ands.len() == 0 {
        m
    } else {
        match claim_ands(m, ands.drop_last()) {
            None => None,
            Some(m2) => {
                let (id, f0, f1) = ands.last();
                let (a, b) = if f0.id > f1.id {
                    (f1, f0)
                } else {
                    (f0, f1)
                };
                if b.id < id {
                    claim_slot(m2, id as int, AigNodeType::And(a, b))
                } else {
                    None
                }
            },
        }
    }
}

/// The unclaimed kind map.
pub open spec fn empty_kinds(num_nodes: int) -> Seq<Option<AigNodeType>> {
    Seq::new(num_nodes as nat, |v: int| None)
}

/// The kind map of a well-formed part list: every node index from 1
/// up claimed exactly once.
pub open spec fn parts_map(
    num_nodes: int,
    inputs: Seq<usize>,
    latchs: Seq<AigLatch>,
    ands: Seq<(usize, AigEdge, AigEdge)>,
) -> Option<Seq<Option<AigNodeType>>> {
    claim_ands(claim_latchs(claim_inputs(Some(empty_kinds(num_nodes)), inputs), latchs), ands)
}

/// Every edge of the list points into the graph.
pub open spec fn edges_in_range(edges: Seq<AigEdge>, num_nodes: int) -> bool {
    forall|k: int| 0 <= k < edges.len() ==> (#[trigger] edges[k]).id < num_nodes
}

/// The part lists describe a well-formed graph: the kind map closes
/// with every slot claimed, and every interface edge is in range.
pub open spec fn parts_ok(
    num_nodes: int,
    inputs: Seq<usize>,
    latchs: Seq<AigLatch>,
    outputs: Seq<AigEdge>,
    bads: Seq<AigEdge>,
    constraints: Seq<AigEdge>,
    ands: Seq<(usize, AigEdge, AigEdge)>,
) -> bool {
    &&& num_nodes >= 1
    &&& parts_map(num_nodes, inputs, latchs, ands) is Some
    &&& (forall|v: int|
        1 <= v < num_nodes ==> (#[trigger] parts_map(
            num_nodes,
            inputs,
            latchs,
            ands,
        )->Some_0[v]) is Some)
    &&& edges_in_range(outputs, num_nodes)
    &&& edges_in_range(bads, num_nodes)
    &&& edges_in_range(constraints, num_nodes)
    &&& (forall|k: int| 0 <= k < latchs.len() ==> (#[trigger] latchs[k]).next.id < num_nodes)
}

impl Aig {
    /// Assembles and checks a graph from its parts, as read from a
    /// circuit description: node 0 is the constant, each listed
    /// input, latch and AND gate claims its own node index, and
    /// every edge must point into the graph, with gate fanins
    /// strictly below their gate. A malformed description yields
    /// nothing; a well-formed one yields the graph with levels and
    /// fanouts computed.
    pub fn from_parts(num_nodes: usize, inputs: Vec<usize>, latchs: Vec<AigLatch>,
        outputs: Vec<AigEdge>, bads: Vec<AigEdge>, constraints: Vec<AigEdge>, ands: Vec<
        (usize, AigEdge, AigEdge)>) -> (r: Option<Aig>)
        ensures
            r is Some <==> parts_ok(
                num_nodes as int,
                inputs@,
                latchs@,
                outputs@,
                bads@,
                constraints@,
                ands@,
            ),
            r is Some ==> {
                let aig = r->Some_0;
                let m = parts_map(num_nodes as int, inputs@, latchs@, ands@)->Some_0;
                &&& aig.wf()
                &&& aig.nodes@.len() == num_nodes
                &&& aig.inputs@ == inputs@
                &&& aig.latchs@ == latchs@
                &&& aig.outputs@ == outputs@
                &&& aig.bads@ == bads@
                &&& aig.constraints@ == constraints@
                &&& (forall|v: int|
                    1 <= v < num_nodes ==> (#[trigger] aig.nodes@[v]).typ == m[v]->Some_0)
                &&& aig.nodes@[0].typ is False
            },
    {
        if num_nodes == 0 {
            return None;
        }
        let mut kinds: Vec<Option<AigNodeType>> = Vec::new();
        for v in 0..num_nodes
            invariant
                kinds@.len() == v,
                forall|q: int| 0 <= q < v ==> (#[trigger] kinds@[q]) is None,
        {
            kinds.push(None);
        }
        proof {
            assert(kinds@ =~= empty_kinds(num_nodes as int));
        }
        let ghost m0: Option<Seq<Option<AigNodeType>>> = Some(empty_kinds(num_nodes as int));
        let ni = inputs.len();
        for k in 0..ni
            invariant
                ni == inputs@.len(),
                kinds@.len() == num_nodes,
                m0 == Some(empty_kinds(num_nodes as int)),
                Some(kinds@) == claim_inputs(m0, inputs@.subrange(0, k as int)),
        {
            let ghost sub = inputs@.subrange(0, k + 1);
            proof {
                assert(sub.drop_last() =~= inputs@.subrange(0, k as int));
                assert(sub.last() == inputs@[k as int]);
            }
            let id = inputs[k];
            if !(1 <= id && id < num_nodes) {
                proof {
                    claim_chain_none(inputs@, latchs@, ands@, m0, sub);
                }
                return None;
            }
            if kinds[id].is_some() {
                proof {
                    claim_chain_none(inputs@, latchs@, ands@, m0, sub);
                }
                return None;
            }
            kinds.set(id, Some(AigNodeType::PrimeInput));
        }
        proof {
            assert(inputs@.subrange(0, ni as int) =~= inputs@);
        }
        let ghost m1 = claim_inputs(m0, inputs@);
        let nl = latchs.len();
        for k in 0..nl
            invariant
                nl == latchs@.len(),
                kinds@.len() == num_nodes,
                m1 == claim_inputs(Some(empty_kinds(num_nodes as int)), inputs@),
                Some(kinds@) == claim_latchs(m1, latchs@.subrange(0, k as int)),
        {
            let ghost sub = latchs@.subrange(0, k + 1);
            proof {
                assert(sub.drop_last() =~= latchs@.subrange(0, k as int));
                assert(sub.last() == latchs@[k as int]);
            }
            let id = latchs[k].input;
            if !(1 <= id && id < num_nodes) {
                proof {
                    latch_chain_none(latchs@, ands@, m1, sub);
                }
                return None;
            }
            if kinds[id].is_some() {
                proof {
                    latch_chain_none(latchs@, ands@, m1, sub);
                }
                return None;
            }
            kinds.set(id, Some(AigNodeType::LatchInput));
        }
        proof {
            assert(latchs@.subrange(0, nl as int) =~= latchs@);
        }
        let ghost m2 = claim_latchs(m1, latchs@);
        let na = ands.len();
        for k in 0..na
            invariant
                na == ands@.len(),
                kinds@.len() == num_nodes,
                m2 == claim_latchs(
                    claim_inputs(Some(empty_kinds(num_nodes as int)), inputs@),
                    latchs@,
                ),
                Some(kinds@) == claim_ands(m2, ands@.subrange(0, k as int)),
        {
            let ghost sub = ands@.subrange(0, k + 1);
            proof {
                assert(sub.drop_last() =~= ands@.subrange(0, k as int));
                assert(sub.last() == ands@[k as int]);
            }
            let (id, f0, f1) = ands[k];
            let (a, b) = if f0.node_id() > f1.node_id() {
                (f1, f0)
            } else {
                (f0, f1)
            };
            if !(b.node_id() < id && 1 <= id && id < num_nodes) {
                proof {
                    and_chain_none(ands@, m2, sub);
                }
                return None;
            }
            if kinds[id].is_some() {
                proof {
                    and_chain_none(ands@, m2, sub);
                }
                return None;
            }
            kinds.set(id, Some(AigNodeType::And(a, b)));
        }
        proof {
            assert(ands@.subrange(0, na as int) =~= ands@);
        }
        for v in 1..num_nodes
            invariant
                kinds@.len() == num_nodes,
                Some(kinds@) == parts_map(num_nodes as int, inputs@, latchs@, ands@),
                forall|q: int| 1 <= q < v ==> (#[trigger] kinds@[q]) is Some,
        {
            if kinds[v].is_none() {
                return None;
            }
        }
        let no = outputs.len();
        for k in 0..no
            invariant
                no == outputs@.len(),
                forall|q: int| 0 <= q < k ==> (#[trigger] outputs@[q]).id < num_nodes,
        {
            if outputs[k].node_id() >= num_nodes {
                return None;
            }
        }
        let nb = bads.len();
        for k in 0..nb
            invariant
                nb == bads@.len(),
                forall|q: int| 0 <= q < k ==> (#[trigger] bads@[q]).id < num_nodes,
        {
            if bads[k].node_id() >= num_nodes {
                return None;
            }
        }
        let nc = constraints.len();
        for k in 0..nc
            invariant
                nc == constraints@.len(),
                forall|q: int| 0 <= q < k ==> (#[trigger] constraints@[q]).id < num_nodes,
        {
            if constraints[k].node_id() >= num_nodes {
                return None;
            }
        }
        for k in 0..nl
            invariant
                nl == latchs@.len(),
                forall|q: int| 0 <= q < k ==> (#[trigger] latchs@[q]).next.id < num_nodes,
        {
            if latchs[k].next.node_id() >= num_nodes {
                return None;
            }
        }
        let mut nodes: Vec<AigNode> = Vec::new();
        nodes.push(AigNode::new_false(0));
        for v in 1..num_nodes
            invariant
                kinds@.len() == num_nodes,
                Some(kinds@) == parts_map(num_nodes as int, inputs@, latchs@, ands@),
                forall|q: int| 1 <= q < num_nodes ==> (#[trigger] kinds@[q]) is Some,
                nodes@.len() == v,
                1 <= v <= num_nodes,
                nodes@[0].typ is False,
                nodes@[0].id == 0 && nodes@[0].level == 0,
                forall|q: int|
                    1 <= q < v ==> {
                        let nd = #[trigger] nodes@[q];
                        &&& nd.id == q
                        &&& nd.level == 0
                        &&& nd.typ == kinds@[q]->Some_0
                        &&& (nd.spec_is_and() ==> nd.spec_fanin0().id <= nd.spec_fanin1().id
                            && nd.spec_fanin1().id < q)
                    },
        {
            let t = match kinds[v] {
                Some(t) => t,
                None => {
                    proof {
                        assert(false);
                    }
                    AigNodeType::PrimeInput
                },
            };
            match t {
                AigNodeType::And(a, b) => {
                    proof {
                        lemma_parts_map_and_shape(
                            num_nodes as int,
                            inputs@,
                            latchs@,
                            ands@,
                            v as int,
                        );
                    }
                    nodes.push(AigNode::new_and(v, a, b, 0));
                },
                AigNodeType::PrimeInput => {
                    nodes.push(AigNode::new_prime_input(v));
                },
                AigNodeType::LatchInput => {
                    nodes.push(AigNode::new_latch_input(v));
                },
                AigNodeType::False => {
                    proof {
                        lemma_parts_map_no_false(
                            num_nodes as int,
                            inputs@,
                            latchs@,
                            ands@,
                            v as int,
                        );
                    }
                    nodes.push(AigNode::new_false(v));
                },
            }
        }
        let mut aig = Aig { nodes, inputs, latchs, outputs, bads, constraints };
        proof {
            let m0s: Option<Seq<Option<AigNodeType>>> = Some(empty_kinds(num_nodes as int));
            let m1s = claim_inputs(m0s, aig.inputs@);
            let m2s = claim_latchs(m1s, aig.latchs@);
            lemma_claim_ands_ranges(m2s, ands@);
            lemma_claim_latchs_ranges(m1s, aig.latchs@);
            lemma_claim_inputs_ranges(m0s, aig.inputs@);
            assert(aig.wf());
        }
        aig.setup_levels();
        aig.setup_fanouts();
        Some(aig)
    }
}

/// A failed input claim fails the whole chain.
proof fn claim_chain_none(
    inputs: Seq<usize>,
    latchs: Seq<AigLatch>,
    ands: Seq<(usize, AigEdge, AigEdge)>,
    m0: Option<Seq<Option<AigNodeType>>>,
    sub: Seq<usize>,
)
    requires
        claim_inputs(m0, sub) is None,
        sub.is_prefix_of(inputs),
    ensures
        claim_inputs(m0, inputs) is None,
        claim_latchs(claim_inputs(m0, inputs), latchs) is None,
        claim_ands(claim_latchs(claim_inputs(m0, inputs), latchs), ands) is None,
{
    lemma_claim_inputs_extend(m0, sub, inputs);
    lemma_claim_latchs_none(latchs);
    lemma_claim_ands_none(ands);
}

/// A failed latch claim fails the rest of the chain.
proof fn latch_chain_none(
    latchs: Seq<AigLatch>,
    ands: Seq<(usize, AigEdge, AigEdge)>,
    m1: Option<Seq<Option<AigNodeType>>>,
    sub: Seq<AigLatch>,
)
    requires
        claim_latchs(m1, sub) is None,
        sub.is_prefix_of(latchs),
    ensures
        claim_latchs(m1, latchs) is None,
        claim_ands(claim_latchs(m1, latchs), ands) is None,
{
    lemma_claim_latchs_extend(m1, sub, latchs);
    lemma_claim_ands_none(ands);
}

/// A failed gate claim fails the chain's tail.
proof fn and_chain_none(
    ands: Seq<(usize, AigEdge, AigEdge)>,
    m2: Option<Seq<Option<AigNodeType>>>,
    sub: Seq<(usize, AigEdge, AigEdge)>,
)
    requires
        claim_ands(m2, sub) is None,
        sub.is_prefix_of(ands),
    ensures
        claim_ands(m2, ands) is None,
{
    lemma_claim_ands_extend(m2, sub, ands);
}

/// Claiming from a failed map fails.
proof fn lemma_claim_latchs_none(latchs: Seq<AigLatch>)
    ensures
        claim_latchs(None, latchs) is None,
    decreases latchs.len(),
{
    if latchs.len() > 0 {
        lemma_claim_latchs_none(latchs.drop_last());
    }
}

/// Claiming from a failed map fails.
proof fn lemma_claim_ands_none(ands: Seq<(usize, AigEdge, AigEdge)>)
    ensures
        claim_ands(None, ands) is None,
    decreases ands.len(),
{
    if ands.len() > 0 {
        lemma_claim_ands_none(ands.drop_last());
    }
}

/// A failure on a prefix persists over the whole input list.
proof fn lemma_claim_inputs_extend(
    m0: Option<Seq<Option<AigNodeType>>>,
    sub: Seq<usize>,
    inputs: Seq<usize>,
)
    requires
        claim_inputs(m0, sub) is None,
        sub.is_prefix_of(inputs),
    ensures
        claim_inputs(m0, inputs) is None,
    decreases inputs.len(),
{
    if sub.len() == inputs.len() {
        assert(sub =~= inputs);
    } else {
        lemma_claim_inputs_extend(m0, sub, inputs.drop_last());
        assert(sub.is_prefix_of(inputs.drop_last()));
    }
}

/// A failure on a prefix persists over the whole latch list.
proof fn lemma_claim_latchs_extend(
    m: Option<Seq<Option<AigNodeType>>>,
    sub: Seq<AigLatch>,
    latchs: Seq<AigLatch>,
)
    requires
        claim_latchs(m, sub) is None,
        sub.is_prefix_of(latchs),
    ensures
        claim_latchs(m, latchs) is None,
    decreases latchs.len(),
{
    if sub.len() == latchs.len() {
        assert(sub =~= latchs);
    } else {
        lemma_claim_latchs_extend(m, sub, latchs.drop_last());
        assert(sub.is_prefix_of(latchs.drop_last()));
    }
}

/// A failure on a prefix persists over the whole gate list.
proof fn lemma_claim_ands_extend(
    m: Option<Seq<Option<AigNodeType>>>,
    sub: Seq<(usize, AigEdge, AigEdge)>,
    ands: Seq<(usize, AigEdge, AigEdge)>,
)
    requires
        claim_ands(m, sub) is None,
        sub.is_prefix_of(ands),
    ensures
        claim_ands(m, ands) is None,
    decreases ands.len(),
{
    if sub.len() == ands.len() {
        assert(sub =~= ands);
    } else {
        lemma_claim_ands_extend(m, sub, ands.drop_last());
        assert(sub.is_prefix_of(ands.drop_last()));
    }
}

/// A gate entry of the finished kind map has ordered fanins strictly
/// below its own index, as the claims enforce.
proof fn lemma_parts_map_and_shape(
    num_nodes: int,
    inputs: Seq<usize>,
    latchs: Seq<AigLatch>,
    ands: Seq<(usize, AigEdge, AigEdge)>,
    v: int,
)
    requires
        parts_map(num_nodes, inputs, latchs, ands) is Some,
        0 <= v < parts_map(num_nodes, inputs, latchs, ands)->Some_0.len(),
        parts_map(num_nodes, inputs, latchs, ands)->Some_0[v] is Some,
        parts_map(num_nodes, inputs, latchs, ands)->Some_0[v]->Some_0 is And,
    ensures
        ({
            let t = parts_map(num_nodes, inputs, latchs, ands)->Some_0[v]->Some_0;
            t->And_0.id <= t->And_1.id < v
        }),
{
    let m0: Option<Seq<Option<AigNodeType>>> = Some(empty_kinds(num_nodes));
    let m1 = claim_inputs(m0, inputs);
    let m2 = claim_latchs(m1, latchs);
    lemma_claim_ands_and_shape(m2, ands, v);
    if !({
        let t = claim_ands(m2, ands)->Some_0[v]->Some_0;
        t->And_0.id <= t->And_1.id < v
    }) {
        lemma_claim_latchs_source(m1, latchs, v);
        lemma_claim_inputs_source(m0, inputs, v);
    }
}

/// Where a gate entry of the claimed map does not obey the fanin
/// bound, it was already in the starting map.
proof fn lemma_claim_ands_and_shape(
    m: Option<Seq<Option<AigNodeType>>>,
    ands: Seq<(usize, AigEdge, AigEdge)>,
    v: int,
)
    requires
        claim_ands(m, ands) is Some,
        0 <= v < claim_ands(m, ands)->Some_0.len(),
        claim_ands(m, ands)->Some_0[v] is Some,
        claim_ands(m, ands)->Some_0[v]->Some_0 is And,
    ensures
        ({
            let t = claim_ands(m, ands)->Some_0[v]->Some_0;
            t->And_0.id <= t->And_1.id < v
        }) || (m is Some && 0 <= v < m->Some_0.len() && m->Some_0[v] is Some
            && m->Some_0[v]->Some_0 == claim_ands(m, ands)->Some_0[v]->Some_0),
    decreases ands.len(),
{
    if ands.len() > 0 {
        let prev = claim_ands(m, ands.drop_last());
        let (id, f0, f1) = ands.last();
        if v == id {
        } else {
            assert(claim_ands(m, ands)->Some_0[v] == prev->Some_0[v]);
            lemma_claim_ands_and_shape(m, ands.drop_last(), v);
        }
    }
}

/// A claimed-map entry the latch claims did not write was already in
/// the starting map.
proof fn lemma_claim_latchs_source(
    m: Option<Seq<Option<AigNodeType>>>,
    latchs: Seq<AigLatch>,
    v: int,
)
    requires
        claim_latchs(m, latchs) is Some,
        0 <= v < claim_latchs(m, latchs)->Some_0.len(),
        claim_latchs(m, latchs)->Some_0[v] is Some,
        !(claim_latchs(m, latchs)->Some_0[v]->Some_0 is LatchInput),
    ensures
        m is Some && 0 <= v < m->Some_0.len() && m->Some_0[v] is Some && m->Some_0[v]->Some_0
            == claim_latchs(m, latchs)->Some_0[v]->Some_0,
    decreases latchs.len(),
{
    if latchs.len() > 0 {
        let prev = claim_latchs(m, latchs.drop_last());
        if v == latchs.last().input {
        } else {
            assert(claim_latchs(m, latchs)->Some_0[v] == prev->Some_0[v]);
            lemma_claim_latchs_source(m, latchs.drop_last(), v);
        }
    }
}

/// A claimed-map entry the input claims did not write was already in
/// the starting map.
proof fn lemma_claim_inputs_source(
    m: Option<Seq<Option<AigNodeType>>>,
    inputs: Seq<usize>,
    v: int,
)
    requires
        claim_inputs(m, inputs) is Some,
        0 <= v < claim_inputs(m, inputs)->Some_0.len(),
        claim_inputs(m, inputs)->Some_0[v] is Some,
        !(claim_inputs(m, inputs)->Some_0[v]->Some_0 is PrimeInput),
    ensures
        m is Some && 0 <= v < m->Some_0.len() && m->Some_0[v] is Some && m->Some_0[v]->Some_0
            == claim_inputs(m, inputs)->Some_0[v]->Some_0,
    decreases inputs.len(),
{
    if inputs.len() > 0 {
        let prev = claim_inputs(m, inputs.drop_last());
        if v == inputs.last() {
        } else {
            assert(claim_inputs(m, inputs)->Some_0[v] == prev->Some_0[v]);
            lemma_claim_inputs_source(m, inputs.drop_last(), v);
        }
    }
}

/// No claim ever writes the constant kind: a constant entry of the
/// finished map is impossible above index 0.
proof fn lemma_parts_map_no_false(
    num_nodes: int,
    inputs: Seq<usize>,
    latchs: Seq<AigLatch>,
    ands: Seq<(usize, AigEdge, AigEdge)>,
    v: int,
)
    requires
        parts_map(num_nodes, inputs, latchs, ands) is Some,
        0 <= v < parts_map(num_nodes, inputs, latchs, ands)->Some_0.len(),
        parts_map(num_nodes, inputs, latchs, ands)->Some_0[v] is Some,
    ensures
        !(parts_map(num_nodes, inputs, latchs, ands)->Some_0[v]->Some_0 is False),
{
    let m0: Option<Seq<Option<AigNodeType>>> = Some(empty_kinds(num_nodes));
    let m1 = claim_inputs(m0, inputs);
    let m2 = claim_latchs(m1, latchs);
    if parts_map(num_nodes, inputs, latchs, ands)->Some_0[v]->Some_0 is False {
        lemma_claim_ands_source(m2, ands, v);
        lemma_claim_latchs_source(m1, latchs, v);
        lemma_claim_inputs_source(m0, inputs, v);
    }
}

/// A claimed-map entry the AND claims did not write was already in
/// the starting map.
proof fn lemma_claim_ands_source(
    m: Option<Seq<Option<AigNodeType>>>,
    ands: Seq<(usize, AigEdge, AigEdge)>,
    v: int,
)
    requires
        claim_ands(m, ands) is Some,
        0 <= v < claim_ands(m, ands)->Some_0.len(),
        claim_ands(m, ands)->Some_0[v] is Some,
        !(claim_ands(m, ands)->Some_0[v]->Some_0 is And),
    ensures
        m is Some && 0 <= v < m->Some_0.len() && m->Some_0[v] is Some && m->Some_0[v]->Some_0
            == claim_ands(m, ands)->Some_0[v]->Some_0,
    decreases ands.len(),
{
    if ands.len() > 0 {
        let prev = claim_ands(m, ands.drop_last());
        if v == ands.last().0 {
        } else {
            assert(claim_ands(m, ands)->Some_0[v] == prev->Some_0[v]);
            lemma_claim_ands_source(m, ands.drop_last(), v);
        }
    }
}


/// A successful input claim keeps the map's length and proves every
/// listed index in range.
proof fn lemma_claim_inputs_ranges(m: Option<Seq<Option<AigNodeType>>>, inputs: Seq<usize>)
    requires
        claim_inputs(m, inputs) is Some,
    ensures
        m is Some,
        claim_inputs(m, inputs)->Some_0.len() == m->Some_0.len(),
        forall|k: int|
            0 <= k < inputs.len() ==> 1 <= #[trigger] inputs[k] < m->Some_0.len(),
    decreases inputs.len(),
{
    if inputs.len() > 0 {
        lemma_claim_inputs_ranges(m, inputs.drop_last());
        assert forall|k: int|
            0 <= k < inputs.len() implies 1 <= #[trigger] inputs[k] < m->Some_0.len() by {
            if k < inputs.len() - 1 {
                assert(inputs.drop_last()[k] == inputs[k]);
            }
        }
    }
}

/// A successful latch claim keeps the map's length and proves every
/// latch state index in range.
proof fn lemma_claim_latchs_ranges(m: Option<Seq<Option<AigNodeType>>>, latchs: Seq<AigLatch>)
    requires
        claim_latchs(m, latchs) is Some,
    ensures
        m is Some,
        claim_latchs(m, latchs)->Some_0.len() == m->Some_0.len(),
        forall|k: int|
            0 <= k < latchs.len() ==> 1 <= (#[trigger] latchs[k]).input < m->Some_0.len(),
    decreases latchs.len(),
{
    if latchs.len() > 0 {
        lemma_claim_latchs_ranges(m, latchs.drop_last());
        assert forall|k: int|
            0 <= k < latchs.len() implies 1 <= (#[trigger] latchs[k]).input
            < m->Some_0.len() by {
            if k < latchs.len() - 1 {
                assert(latchs.drop_last()[k] == latchs[k]);
            }
        }
    }
}

/// A successful gate claim keeps the map's length.
proof fn lemma_claim_ands_ranges(
    m: Option<Seq<Option<AigNodeType>>>,
    ands: Seq<(usize, AigEdge, AigEdge)>,
)
    requires
        claim_ands(m, ands) is Some,
    ensures
        m is Some,
        claim_ands(m, ands)->Some_0.len() == m->Some_0.len(),
    decreases ands.len(),
{
    if ands.len() > 0 {
        lemma_claim_ands_ranges(m, ands.drop_last());
    }
}


/// Marks the targets of a fanout list, one edge after the other.
pub open spec fn set_fanout_targets(flags: Seq<bool>, fo: Seq<AigEdge>, k: int) -> Seq<bool>
    decreases k,
{
    if k <= 0 {
        flags
    } else {
        let f = set_fanout_targets(flags, fo, k - 1);
        if fo[k - 1].id < f.len() {
            f.update(fo[k - 1].id as int, true)
        } else {
            f
        }
    }
}

/// One step of the forward cone computation at node `id`: a flagged
/// node flags everything its fanout list names.
pub open spec fn fanout_step(nodes: Seq<AigNode>, flags: Seq<bool>, id: int) -> Seq<bool> {
    if 0 <= id < nodes.len() && 0 <= id < flags.len() && flags[id] {
        set_fanout_targets(flags, nodes[id].fanouts@, nodes[id].fanouts@.len() as int)
    } else {
        flags
    }
}

/// The forward cone flags after the ascending pass has handled the
/// nodes below `m`, starting from the root alone: entry `i` of the
/// full pass says whether the root's value can reach node `i`
/// through the recorded fanouts.
pub open spec fn fanout_cone_from(nodes: Seq<AigNode>, root: int, m: int) -> Seq<bool>
    decreases m,
{
    if m <= 0 {
        Seq::new(nodes.len(), |i: int| i == root)
    } else {
        fanout_step(nodes, fanout_cone_from(nodes, root, m - 1), m - 1)
    }
}

impl Aig {
    /// The forward logic cone of an edge: every node its value can
    /// reach through the recorded fanout lists, by one ascending
    /// pass.
    pub fn fanout_logic_cone(&self, logic: AigEdge) -> (r: Vec<bool>)
        requires
            self.wf(),
            logic.id < self.nodes@.len(),
        ensures
            r@.len() == self.nodes@.len(),
            r@ == fanout_cone_from(self.nodes@, logic.id as int, self.nodes@.len() as int),
    {
        let n = self.nodes.len();
        let mut flag: Vec<bool> = Vec::new();
        for i in 0..n
            invariant
                flag@.len() == i,
                forall|q: int| 0 <= q < i ==> flag@[q] == (q == logic.id),
        {
            flag.push(i == logic.node_id());
        }
        proof {
            assert(flag@ =~= fanout_cone_from(self.nodes@, logic.id as int, 0));
        }
        for id in 0..n
            invariant
                n == self.nodes@.len(),
                flag@.len() == n,
                self.wf(),
                logic.id < n,
                flag@ == fanout_cone_from(self.nodes@, logic.id as int, id as int),
        {
            let ghost pre = flag@;
            if flag[id] {
                let m = self.nodes[id].fanouts.len();
                for k in 0..m
                    invariant
                        n == self.nodes@.len(),
                        id < n,
                        flag@.len() == n,
                        m == self.nodes@[id as int].fanouts@.len(),
                        flag@ == set_fanout_targets(
                            pre,
                            self.nodes@[id as int].fanouts@,
                            k as int,
                        ),
                        pre.len() == n,
                {
                    let e = self.nodes[id].fanouts[k];
                    if e.node_id() < n {
                        flag.set(e.node_id(), true);
                    }
                }
                proof {
                    assert(flag@ == fanout_step(self.nodes@, pre, id as int));
                }
            } else {
                proof {
                    assert(flag@ == fanout_step(self.nodes@, pre, id as int));
                }
            }
        }
        flag
    }
}


/// Every edge of the list evaluates to true under the assignment.
pub open spec fn all_edges_true(
    nodes: Seq<AigNode>,
    leaf: Seq<bool>,
    edges: Seq<AigEdge>,
) -> bool {
    forall|k: int| 0 <= k < edges.len() ==> edge_val(nodes, leaf, #[trigger] edges[k])
}

/// Growing a graph twice grows it once.
pub proof fn lemma_grows_from_trans(a: Seq<AigNode>, b: Seq<AigNode>, c: Seq<AigNode>)
    requires
        grows_from(a, b),
        grows_from(b, c),
    ensures
        grows_from(a, c),
{
    assert forall|k: int|
        0 <= k < a.len() implies (#[trigger] c[k]).typ == a[k].typ && c[k].id == a[k].id
        && c[k].level == a[k].level && a[k].fanouts@.is_prefix_of(c[k].fanouts@) by {
        assert(b[k].typ == a[k].typ);
        assert(c[k].typ == b[k].typ);
        assert(a[k].fanouts@.is_prefix_of(b[k].fanouts@));
        assert(b[k].fanouts@.is_prefix_of(c[k].fanouts@));
        assert(a[k].fanouts@ =~= c[k].fanouts@.subrange(0, a[k].fanouts@.len() as int));
    }
}

impl Aig {
    /// The conjunction of a whole edge list: gates are built two
    /// edges at a time, the shallowest first, and the returned edge
    /// means exactly the conjunction of them all.
    pub fn new_and_nodes(&mut self, edges: Vec<AigEdge>) -> (r: AigEdge)
        requires
            old(self).wf(),
            edges@.len() >= 1,
            forall|k: int|
                0 <= k < edges@.len() ==> (#[trigger] edges@[k]).id < old(self).nodes@.len(),
        ensures
            final(self).wf(),
            grows_from(old(self).nodes@, final(self).nodes@),
            r.id < final(self).nodes@.len(),
            forall|leaf: Seq<bool>|
                #[trigger] edge_val(final(self).nodes@, leaf, r) == all_edges_true(
                    old(self).nodes@,
                    leaf,
                    edges@,
                ),
            final(self).inputs == old(self).inputs,
            final(self).latchs == old(self).latchs,
            final(self).outputs == old(self).outputs,
            final(self).bads == old(self).bads,
            final(self).constraints == old(self).constraints,
    {
        let ghost nodes0 = old(self).nodes@;
        let ghost edges0 = edges@;
        let mut work = edges;
        while work.len() > 1
            invariant
                old(self).wf(),
                self.wf(),
                work@.len() >= 1,
                grows_from(nodes0, self.nodes@),
                nodes0 == old(self).nodes@,
                forall|k: int|
                    0 <= k < work@.len() ==> (#[trigger] work@[k]).id < self.nodes@.len(),
                forall|leaf: Seq<bool>|
                    #[trigger] all_edges_true(self.nodes@, leaf, work@) == all_edges_true(
                        nodes0,
                        leaf,
                        edges0,
                    ),
                self.inputs == old(self).inputs,
                self.latchs == old(self).latchs,
                self.outputs == old(self).outputs,
                self.bads == old(self).bads,
                self.constraints == old(self).constraints,
            decreases work@.len(),
        {
            let n = work.len();
            let mut i1: usize = 0;
            for j in 1..n
                invariant
                    n == work@.len(),
                    i1 < j <= n,
                    forall|k: int|
                        0 <= k < work@.len() ==> (#[trigger] work@[k]).id
                            < self.nodes@.len(),
            {
                if self.nodes[work[j].node_id()].level
                    < self.nodes[work[i1].node_id()].level {
                    i1 = j;
                }
            }
            let mut i2: usize = if i1 == 0 {
                1
            } else {
                0
            };
            for j in 0..n
                invariant
                    n == work@.len() >= 2,
                    i1 < n,
                    i2 < n,
                    i1 != i2,
                    forall|k: int|
                        0 <= k < work@.len() ==> (#[trigger] work@[k]).id
                            < self.nodes@.len(),
            {
                if j != i1 {
                    if self.nodes[work[j].node_id()].level
                        < self.nodes[work[i2].node_id()].level {
                        i2 = j;
                    }
                }
            }
            let lo = if i1 < i2 {
                i1
            } else {
                i2
            };
            let hi = if i1 < i2 {
                i2
            } else {
                i1
            };
            let a = work[lo];
            let b = work[hi];
            let ghost work_pre = work@;
            work.remove(hi);
            work.remove(lo);
            let ghost nodes_pre = self.nodes@;
            let g = self.new_and_node(a, b);
            let ghost work_mid = work@;
            work.push(g);
            proof {
                lemma_grows_from_trans(nodes0, nodes_pre, self.nodes@);
                assert forall|k: int|
                    0 <= k < work@.len() implies (#[trigger] work@[k]).id
                    < self.nodes@.len() by {
                    if k < work_mid.len() {
                        assert(work@[k] == work_mid[k]);
                        let src = if k < lo {
                            k
                        } else if k + 1 < hi {
                            k + 1
                        } else {
                            k + 2
                        };
                        assert(work_mid[k] == work_pre[src]);
                    }
                }
                assert forall|leaf: Seq<bool>|
                    #[trigger] all_edges_true(self.nodes@, leaf, work@) == all_edges_true(
                    nodes0,
                    leaf,
                    edges0,
                ) by {
                    assert(edge_val(self.nodes@, leaf, g) == (edge_val(nodes_pre, leaf, a)
                        && edge_val(nodes_pre, leaf, b)));
                    if all_edges_true(self.nodes@, leaf, work@) {
                        assert(edge_val(self.nodes@, leaf, work@[work_mid.len() as int]));
                        assert forall|j: int|
                            0 <= j < work_pre.len() implies edge_val(
                            nodes_pre,
                            leaf,
                            #[trigger] work_pre[j],
                        ) by {
                            if j == lo {
                                lemma_edge_val_grows(nodes_pre, self.nodes@, leaf, a);
                            } else if j == hi {
                                lemma_edge_val_grows(nodes_pre, self.nodes@, leaf, b);
                            } else {
                                let dst = if j < lo {
                                    j
                                } else if j < hi {
                                    j - 1
                                } else {
                                    j - 2
                                };
                                assert(work@[dst] == work_pre[j]);
                                assert(edge_val(self.nodes@, leaf, work_pre[j]));
                                lemma_edge_val_grows(
                                    nodes_pre,
                                    self.nodes@,
                                    leaf,
                                    work_pre[j],
                                );
                            }
                        }
                        assert(all_edges_true(nodes_pre, leaf, work_pre));
                    }
                    if all_edges_true(nodes_pre, leaf, work_pre) {
                        assert forall|k: int|
                            0 <= k < work@.len() implies edge_val(
                            self.nodes@,
                            leaf,
                            #[trigger] work@[k],
                        ) by {
                            if k < work_mid.len() {
                                let src = if k < lo {
                                    k
                                } else if k + 1 < hi {
                                    k + 1
                                } else {
                                    k + 2
                                };
                                assert(work@[k] == work_pre[src]);
                                assert(edge_val(nodes_pre, leaf, work_pre[src]));
                                lemma_edge_val_grows(
                                    nodes_pre,
                                    self.nodes@,
                                    leaf,
                                    work_pre[src],
                                );
                            } else {
                                assert(work@[k] == g);
                                assert(edge_val(nodes_pre, leaf, work_pre[lo as int])
                                    && edge_val(nodes_pre, leaf, work_pre[hi as int]));
                            }
                        }
                    }
                }
            }
        }
        let r = work[0];
        proof {
            assert forall|leaf: Seq<bool>|
                #[trigger] edge_val(final(self).nodes@, leaf, r) == all_edges_true(
                nodes0,
                leaf,
                edges0,
            ) by {
                assert(all_edges_true(self.nodes@, leaf, work@) == all_edges_true(
                    nodes0,
                    leaf,
                    edges0,
                ));
                if edge_val(self.nodes@, leaf, r) {
                    assert forall|k: int| 0 <= k < work@.len() implies edge_val(
                        self.nodes@,
                        leaf,
                        #[trigger] work@[k],
                    ) by {
                        assert(work@[k] == r);
                    }
                }
                if all_edges_true(self.nodes@, leaf, work@) {
                    assert(edge_val(self.nodes@, leaf, work@[0]));
                }
            }
        }
        r
    }
}


impl Aig {
    /// Turns every latch state node into a primary input, pairing it
    /// with a fresh input node that stands for its next-state value:
    /// the returned edge is true exactly when every latch's
    /// next-state edge agrees with its fresh input.
    pub fn transfer_latch_outputs_into_pinputs(&mut self) -> (r: (Vec<(usize, usize)>,
        AigEdge))
        requires
            old(self).wf(),
            old(self).latchs@.len() >= 1,
            forall|k: int|
                0 <= k < old(self).latchs@.len() ==> old(self).nodes@[(#[trigger] old(
                    self,
                ).latchs@[k]).input as int].typ is LatchInput,
            forall|a: int, b: int|
                0 <= a < b < old(self).latchs@.len() ==> (#[trigger] old(
                    self,
                ).latchs@[a]).input != (#[trigger] old(self).latchs@[b]).input,
        ensures
            final(self).wf(),
            final(self).latchs@.len() == 0,
            r.0@.len() == old(self).latchs@.len(),
            forall|k: int|
                0 <= k < r.0@.len() ==> (#[trigger] r.0@[k]).1 == old(self).latchs@[k].input
                    && r.0@[k].0 < final(self).nodes@.len() && final(self).nodes@[r.0@[k].0
                    as int].typ is PrimeInput,
            forall|k: int|
                0 <= k < old(self).latchs@.len() ==> final(self).nodes@[(#[trigger] old(
                    self,
                ).latchs@[k]).input as int].typ is PrimeInput,
            r.1.id < final(self).nodes@.len(),
            forall|leaf: Seq<bool>|
                #[trigger] edge_val(final(self).nodes@, leaf, r.1) == (forall|k: int|
                    0 <= k < old(self).latchs@.len() ==> (edge_val(
                        final(self).nodes@,
                        leaf,
                        (#[trigger] old(self).latchs@[k]).next,
                    ) == leaf[r.0@[k].0 as int])),
    {
        let ghost nodes0 = old(self).nodes@;
        let ghost latchs0 = old(self).latchs@;
        let mut latchs_local: Vec<AigLatch> = Vec::new();
        let nl = self.latchs.len();
        for k in 0..nl
            invariant
                nl == self.latchs@.len(),
                latchs_local@ =~= self.latchs@.subrange(0, k as int),
                *self == *old(self),
        {
            latchs_local.push(self.latchs[k]);
        }
        proof {
            assert(latchs_local@ =~= latchs0);
        }
        self.latchs = Vec::new();
        for k in 0..nl
            invariant
                nl == latchs0.len(),
                latchs_local@ == latchs0,
                old(self).wf(),
                nodes0 == old(self).nodes@,
                self.nodes@.len() == nodes0.len(),
                self.inputs == old(self).inputs,
                self.latchs@.len() == 0,
                self.outputs == old(self).outputs,
                self.bads == old(self).bads,
                self.constraints == old(self).constraints,
                forall|q: int|
                    0 <= q < latchs0.len() ==> (#[trigger] latchs0[q]).input
                        < nodes0.len() && nodes0[latchs0[q].input as int].typ is LatchInput,
                forall|a: int, b: int|
                    0 <= a < b < latchs0.len() ==> (#[trigger] latchs0[a]).input != (
                    #[trigger] latchs0[b]).input,
                forall|i: int|
                    0 <= i < nodes0.len() ==> {
                        let nd = #[trigger] self.nodes@[i];
                        &&& nd.id == nodes0[i].id
                        &&& nd.level == nodes0[i].level
                        &&& nd.fanouts == nodes0[i].fanouts
                        &&& (nd.typ == nodes0[i].typ || (nodes0[i].typ is LatchInput
                            && nd.typ is PrimeInput))
                    },
                forall|q: int|
                    0 <= q < k ==> self.nodes@[(#[trigger] latchs0[q]).input
                        as int].typ is PrimeInput,
        {
            let id = latchs_local[k].input;
            self.nodes[id].typ = AigNodeType::PrimeInput;
        }
        proof {
            assert(self.wf()) by {
                assert forall|i: int|
                    0 <= i < self.nodes@.len() && (#[trigger] self.nodes@[i]).spec_is_and()
                        implies {
                    &&& self.nodes@[i].spec_fanin0().id <= self.nodes@[i].spec_fanin1().id
                    &&& self.nodes@[i].spec_fanin1().id < i
                } by {
                    assert(nodes0[i].spec_is_and());
                    assert(self.nodes@[i].typ == nodes0[i].typ);
                }
            }
        }
        let ghost nodes1 = self.nodes@;
        let mut pairs: Vec<(usize, usize)> = Vec::new();
        let mut equals: Vec<AigEdge> = Vec::new();
        for k in 0..nl
            invariant
                nl == latchs0.len(),
                latchs_local@ == latchs0,
                self.wf(),
                nodes1.len() <= self.nodes@.len(),
                grows_from(nodes1, self.nodes@),
                nodes_wf(nodes1),
                self.latchs@.len() == 0,
                self.bads == old(self).bads,
                self.outputs == old(self).outputs,
                self.constraints == old(self).constraints,
                forall|q: int|
                    0 <= q < latchs0.len() ==> (#[trigger] latchs0[q]).input
                        < nodes1.len() && nodes1[latchs0[q].input as int].typ is PrimeInput
                        && latchs0[q].next.id < nodes1.len(),
                pairs@.len() == k,
                equals@.len() == k,
                forall|q: int|
                    0 <= q < k ==> (#[trigger] pairs@[q]).1 == latchs0[q].input
                        && pairs@[q].0 < self.nodes@.len() && self.nodes@[pairs@[q].0
                        as int].typ is PrimeInput,
                forall|q: int|
                    0 <= q < k ==> (#[trigger] equals@[q]).id < self.nodes@.len(),
                forall|leaf: Seq<bool>, q: int|
                    0 <= q < k ==> #[trigger] edge_val(
                        self.nodes@,
                        leaf,
                        #[trigger] equals@[q],
                    ) == (edge_val(self.nodes@, leaf, latchs0[q].next) == leaf[pairs@[q].0
                        as int]),
            decreases nl - k,
        {
            let latch = latchs_local[k];
            let ghost pre = self.nodes@;
            let inode = self.new_input_node();
            let ghost mid = self.nodes@;
            let eq = self.new_equal_node(latch.next, AigEdge::new(inode, false));
            proof {
                lemma_grows_from_trans(nodes1, pre, self.nodes@);
                lemma_grows_from_trans(pre, mid, self.nodes@);
            }
            pairs.push((inode, latch.input));
            equals.push(eq);
            proof {
                let cur = self.nodes@;
                assert forall|leaf: Seq<bool>, q: int| 0 <= q < k + 1 implies #[trigger] edge_val(
                    cur,
                    leaf,
                    #[trigger] equals@[q],
                ) == (edge_val(cur, leaf, latchs0[q].next) == leaf[pairs@[q].0 as int]) by {
                    if q < k {
                        assert(equals@[q] == equals@.subrange(0, k as int)[q]);
                        lemma_edge_val_grows(pre, cur, leaf, equals@[q]);
                        lemma_edge_val_grows(pre, cur, leaf, latchs0[q].next);
                        assert(edge_val(pre, leaf, equals@[q]) == (edge_val(
                            pre,
                            leaf,
                            latchs0[q].next,
                        ) == leaf[pairs@[q].0 as int]));
                    } else {
                        assert(edge_val(cur, leaf, eq) == (edge_val(mid, leaf, latch.next)
                            == edge_val(mid, leaf, AigEdge { id: inode, complement: false })));
                        assert(mid[inode as int].typ is PrimeInput);
                        assert(node_val(mid, leaf, inode as int) == leaf[inode as int]);
                        lemma_edge_val_grows(mid, cur, leaf, AigEdge { id: inode, complement: false });
                        lemma_edge_val_grows(pre, mid, leaf, latchs0[q].next);
                        lemma_edge_val_grows(pre, cur, leaf, latchs0[q].next);
                    }
                }
            }
        }
        let ghost nodes2 = self.nodes@;
        let e = self.new_and_nodes(equals);
        proof {
            lemma_grows_from_trans(nodes1, nodes2, self.nodes@);
            let cur = self.nodes@;
            assert forall|leaf: Seq<bool>|
                #[trigger] edge_val(cur, leaf, e) == (forall|k: int|
                    0 <= k < latchs0.len() ==> (edge_val(
                        cur,
                        leaf,
                        (#[trigger] latchs0[k]).next,
                    ) == leaf[pairs@[k].0 as int])) by {
                assert(edge_val(cur, leaf, e) == all_edges_true(nodes2, leaf, equals@));
                if edge_val(cur, leaf, e) {
                    assert forall|k: int|
                        0 <= k < latchs0.len() implies (edge_val(
                        cur,
                        leaf,
                        (#[trigger] latchs0[k]).next,
                    ) == leaf[pairs@[k].0 as int]) by {
                        assert(edge_val(nodes2, leaf, equals@[k]));
                        lemma_edge_val_grows(nodes2, cur, leaf, equals@[k]);
                        lemma_edge_val_grows(nodes2, cur, leaf, latchs0[k].next);
                        assert(edge_val(nodes2, leaf, equals@[k]) == (edge_val(
                            nodes2,
                            leaf,
                            latchs0[k].next,
                        ) == leaf[pairs@[k].0 as int]));
                    }
                } else {
                    assert(!all_edges_true(nodes2, leaf, equals@));
                    let k = choose|k: int|
                        0 <= k < equals@.len() && !edge_val(nodes2, leaf, #[trigger] equals@[k]);
                    lemma_edge_val_grows(nodes2, cur, leaf, equals@[k]);
                    lemma_edge_val_grows(nodes2, cur, leaf, latchs0[k].next);
                    assert(!(edge_val(cur, leaf, latchs0[k].next) == leaf[pairs@[k].0
                        as int]));
                }
            }
            assert forall|k: int|
                0 <= k < latchs0.len() implies final(self).nodes@[(#[trigger] latchs0[
                k]).input as int].typ is PrimeInput by {
                assert(nodes1[latchs0[k].input as int].typ is PrimeInput);
            }
        }
        (pairs, e)
    }
}


/// An edge after a merge: edges at the replaced node move to the
/// kept node, their complement adjusted by the polarity difference
/// of the two merged edges.
pub open spec fn rewire_edge(e: AigEdge, rep: int, byid: int, compl: bool) -> AigEdge {
    if e.id == rep {
        AigEdge { id: byid as usize, complement: e.complement != compl }
    } else {
        e
    }
}

/// How a merge relates the node vectors: same indices and kinds,
/// every AND fanin rewired and kept in ascending order; levels and
/// fanout lists are free to differ.
pub open spec fn merged_nodes_rel(
    a: Seq<AigNode>,
    b: Seq<AigNode>,
    rep: int,
    byid: int,
    compl: bool,
) -> bool {
    &&& b.len() == a.len()
    &&& forall|i: int| 0 <= i < a.len() ==> (#[trigger] b[i]).id == a[i].id
    &&& forall|i: int|
        0 <= i < a.len() ==> if (#[trigger] a[i]).spec_is_and() {
            let f0 = rewire_edge(a[i].spec_fanin0(), rep, byid, compl);
            let f1 = rewire_edge(a[i].spec_fanin1(), rep, byid, compl);
            b[i].typ == if f0.id > f1.id {
                AigNodeType::And(f1, f0)
            } else {
                AigNodeType::And(f0, f1)
            }
        } else {
            b[i].typ == a[i].typ
        }
}

/// Merging functionally equivalent edges preserves every node's
/// value: when the replaced edge and the kept edge agree under an
/// assignment, the rewired graph gives each node the value it had.
pub proof fn lemma_merge_preserves_vals(
    a: Seq<AigNode>,
    b: Seq<AigNode>,
    rep: int,
    byid: int,
    compl: bool,
    leaf: Seq<bool>,
    i: int,
)
    requires
        nodes_wf(a),
        0 <= byid < rep < a.len(),
        merged_nodes_rel(a, b, rep, byid, compl),
        (node_val(a, leaf, rep) != compl) == node_val(a, leaf, byid),
        0 <= i < a.len(),
    ensures
        node_val(b, leaf, i) == node_val(a, leaf, i),
    decreases i,
{
    if a[i].spec_is_and() {
        let a0 = a[i].spec_fanin0();
        let a1 = a[i].spec_fanin1();
        let f0 = rewire_edge(a0, rep, byid, compl);
        let f1 = rewire_edge(a1, rep, byid, compl);
        lemma_merge_preserves_vals(a, b, rep, byid, compl, leaf, a0.id as int);
        lemma_merge_preserves_vals(a, b, rep, byid, compl, leaf, a1.id as int);
        if a0.id == rep {
            lemma_merge_preserves_vals(a, b, rep, byid, compl, leaf, byid);
        }
        if a1.id == rep {
            lemma_merge_preserves_vals(a, b, rep, byid, compl, leaf, byid);
        }
        assert(edge_val(b, leaf, f0) == edge_val(a, leaf, a0));
        assert(edge_val(b, leaf, f1) == edge_val(a, leaf, a1));
        assert(node_val(b, leaf, i) == (edge_val(b, leaf, f0) && edge_val(b, leaf, f1)));
    }
}

impl Aig {
    /// Merges a node into a functionally equivalent one below it:
    /// the fanouts of the replaced node are rewired to the kept
    /// node, with complements adjusted by the polarity difference,
    /// and latch next-state, output and bad edges follow. The
    /// replaced node's fanout list must name exactly the gates it
    /// feeds, each once and through one fanin.
    pub fn merge_fe_node(&mut self, replaced: AigEdge, by: AigEdge) -> (r: ())
        requires
            old(self).wf(),
            by.id < replaced.id < old(self).nodes@.len(),
            ({
                let nodes = old(self).nodes@;
                let rep = replaced.id as int;
                let fo = nodes[rep].fanouts@;
                &&& (forall|q: int|
                    0 <= q < fo.len() ==> {
                        let g = (#[trigger] fo[q]).id as int;
                        &&& g < nodes.len()
                        &&& nodes[g].spec_is_and()
                        &&& nodes[g].spec_fanin0().id < nodes[g].spec_fanin1().id
                        &&& (nodes[g].spec_fanin0().id == rep || nodes[g].spec_fanin1().id
                            == rep)
                        &&& !(nodes[g].spec_fanin0().id == rep
                            && nodes[g].spec_fanin1().id == rep)
                        &&& (nodes[g].spec_fanin0().id == rep ==> fo[q].complement
                            == nodes[g].spec_fanin0().complement)
                        &&& (nodes[g].spec_fanin1().id == rep ==> fo[q].complement
                            == nodes[g].spec_fanin1().complement)
                    })
                &&& (forall|a: int, b2: int|
                    0 <= a < b2 < fo.len() ==> (#[trigger] fo[a]).id != (
                    #[trigger] fo[b2]).id)
                &&& (forall|g: int|
                    0 <= g < nodes.len() && (#[trigger] nodes[g]).spec_is_and() && (
                    nodes[g].spec_fanin0().id == rep || nodes[g].spec_fanin1().id == rep)
                        ==> (exists|q: int|
                        0 <= q < fo.len() && (#[trigger] fo[q]).id == g))
            }),
        ensures
            final(self).wf(),
            final(self).nodes@.len() == old(self).nodes@.len(),
            merged_nodes_rel(
                old(self).nodes@,
                final(self).nodes@,
                replaced.id as int,
                by.id as int,
                replaced.complement != by.complement,
            ),
            final(self).nodes@[replaced.id as int].fanouts@.len() == 0,
            final(self).inputs == old(self).inputs,
            final(self).constraints == old(self).constraints,
            final(self).latchs@.len() == old(self).latchs@.len(),
            forall|k: int|
                0 <= k < old(self).latchs@.len() ==> {
                    let ol = old(self).latchs@[k];
                    (#[trigger] final(self).latchs@[k]) == (AigLatch {
                        next: rewire_edge(
                            ol.next,
                            replaced.id as int,
                            by.id as int,
                            replaced.complement != by.complement,
                        ),
                        ..ol
                    })
                },
            final(self).outputs@.len() == old(self).outputs@.len(),
            forall|k: int|
                0 <= k < old(self).outputs@.len() ==> (#[trigger] final(self).outputs@[k])
                    == rewire_edge(
                    old(self).outputs@[k],
                    replaced.id as int,
                    by.id as int,
                    replaced.complement != by.complement,
                ),
            final(self).bads@.len() == old(self).bads@.len(),
            forall|k: int|
                0 <= k < old(self).bads@.len() ==> (#[trigger] final(self).bads@[k])
                    == rewire_edge(
                    old(self).bads@[k],
                    replaced.id as int,
                    by.id as int,
                    replaced.complement != by.complement,
                ),
    {
        let compl = replaced.compl() != by.compl();
        let rep = replaced.node_id();
        let byid = by.node_id();
        let ghost nodes0 = old(self).nodes@;
        let ghost repi = rep as int;
        let ghost byi = byid as int;
        // the kept node forgets that it fed the replaced node
        let mut kept_fanouts: Vec<AigEdge> = Vec::new();
        let m = self.nodes[byid].fanouts.len();
        for q in 0..m
            invariant
                byid < self.nodes@.len(),
                m == self.nodes@[byid as int].fanouts@.len(),
                *self == *old(self),
        {
            let e = self.nodes[byid].fanouts[q];
            if e.node_id() != rep {
                kept_fanouts.push(e);
            }
        }
        self.nodes[byid].fanouts = kept_fanouts;
        // take the replaced node's fanout list
        let mut fanouts: Vec<AigEdge> = Vec::new();
        let mf = self.nodes[rep].fanouts.len();
        proof {
            assert(self.nodes@[repi].fanouts@ == nodes0[repi].fanouts@);
        }
        for q in 0..mf
            invariant
                repi == rep as int,
                rep < self.nodes@.len(),
                mf == self.nodes@[repi].fanouts@.len(),
                self.nodes@[repi].fanouts@ == nodes0[repi].fanouts@,
                fanouts@ =~= self.nodes@[repi].fanouts@.subrange(0, q as int),
        {
            fanouts.push(self.nodes[rep].fanouts[q]);
        }
        proof {
            assert(fanouts@ =~= nodes0[repi].fanouts@);
        }
        self.nodes[rep].fanouts = Vec::new();
        let ghost fo = fanouts@;
        let n = fanouts.len();
        for q in 0..n
            invariant
                n == fo.len(),
                fo == fanouts@,
                fo == nodes0[repi].fanouts@,
                repi == rep as int,
                byi == byid as int,
                0 <= byi < repi < self.nodes@.len(),
                self.nodes@.len() == nodes0.len(),
                nodes_wf(nodes0),
                self.inputs == old(self).inputs,
                self.latchs == old(self).latchs,
                self.outputs == old(self).outputs,
                self.bads == old(self).bads,
                self.constraints == old(self).constraints,
                repi == replaced.id,
                byi == by.id,
                compl == (replaced.complement != by.complement),
                forall|q2: int|
                    0 <= q2 < fo.len() ==> {
                        let g = (#[trigger] fo[q2]).id as int;
                        &&& g < nodes0.len()
                        &&& nodes0[g].spec_is_and()
                        &&& nodes0[g].spec_fanin0().id < nodes0[g].spec_fanin1().id
                        &&& (nodes0[g].spec_fanin0().id == repi
                            || nodes0[g].spec_fanin1().id == repi)
                        &&& !(nodes0[g].spec_fanin0().id == repi
                            && nodes0[g].spec_fanin1().id == repi)
                        &&& (nodes0[g].spec_fanin0().id == repi ==> fo[q2].complement
                            == nodes0[g].spec_fanin0().complement)
                        &&& (nodes0[g].spec_fanin1().id == repi ==> fo[q2].complement
                            == nodes0[g].spec_fanin1().complement)
                    },
                forall|a: int, b2: int|
                    0 <= a < b2 < fo.len() ==> (#[trigger] fo[a]).id != (#[trigger] fo[b2]).id,
                forall|i: int| 0 <= i < nodes0.len() ==> (#[trigger] self.nodes@[i]).id == i,
                forall|i: int|
                    0 <= i < nodes0.len() ==> (#[trigger] self.nodes@[i]).level <= i,
                forall|i: int|
                    0 <= i < nodes0.len() && (#[trigger] self.nodes@[i]).spec_is_and() ==> {
                        &&& self.nodes@[i].spec_fanin0().id <= self.nodes@[i].spec_fanin1().id
                        &&& self.nodes@[i].spec_fanin1().id < i
                    },
                self.nodes@[0].typ is False,
                self.nodes@[repi].fanouts@.len() == 0,
                forall|i: int|
                    0 <= i < nodes0.len() && !(exists|q2: int|
                        0 <= q2 < q && (#[trigger] fo[q2]).id == i) ==> (
                    #[trigger] self.nodes@[i]).typ == nodes0[i].typ,
                forall|q2: int|
                    0 <= q2 < q ==> {
                        let g = (#[trigger] fo[q2]).id as int;
                        let f0 = rewire_edge(nodes0[g].spec_fanin0(), repi, byi, compl);
                        let f1 = rewire_edge(nodes0[g].spec_fanin1(), repi, byi, compl);
                        self.nodes@[g].typ == if f0.id > f1.id {
                            AigNodeType::And(f1, f0)
                        } else {
                            AigNodeType::And(f0, f1)
                        }
                    },
        {
            let f = fanouts[q];
            let gid = f.node_id();
            proof {
                assert(fo[q as int].id as int == gid);
                assert(!(exists|q2: int| 0 <= q2 < q && (#[trigger] fo[q2]).id == gid));
                assert(self.nodes@[gid as int].typ == nodes0[gid as int].typ);
            }
            let mut f0 = self.nodes[gid].fanin0();
            let mut f1 = self.nodes[gid].fanin1();
            if f0.node_id() == rep {
                f0 = AigEdge::new(byid, f.compl() != compl);
            }
            if f1.node_id() == rep {
                f1 = AigEdge::new(byid, f.compl() != compl);
            }
            let (f0, f1) = if f0.node_id() > f1.node_id() {
                (f1, f0)
            } else {
                (f0, f1)
            };
            self.nodes[gid].set_fanin0(f0);
            self.nodes[gid].set_fanin1(f1);
            let l0 = self.nodes[f0.node_id()].level;
            let l1 = self.nodes[f1.node_id()].level;
            let lm = if l0 > l1 {
                l0
            } else {
                l1
            };
            self.nodes[gid].level = lm + 1;
            self.nodes[byid].fanouts.push(f);
            proof {
                assert forall|i: int|
                    0 <= i < nodes0.len() && !(exists|q2: int|
                        0 <= q2 < q + 1 && (#[trigger] fo[q2]).id == i) implies (
                #[trigger] self.nodes@[i]).typ == nodes0[i].typ by {
                    assert(i != gid);
                }
            }
        }
        let ghost nodes_after = self.nodes@;
        proof {
            assert forall|i: int|
                0 <= i < nodes0.len() implies if (#[trigger] nodes0[i]).spec_is_and() {
                let f0 = rewire_edge(nodes0[i].spec_fanin0(), repi, byi, compl);
                let f1 = rewire_edge(nodes0[i].spec_fanin1(), repi, byi, compl);
                nodes_after[i].typ == if f0.id > f1.id {
                    AigNodeType::And(f1, f0)
                } else {
                    AigNodeType::And(f0, f1)
                }
            } else {
                nodes_after[i].typ == nodes0[i].typ
            } by {
                if nodes0[i].spec_is_and() {
                    if exists|q2: int| 0 <= q2 < fo.len() && (#[trigger] fo[q2]).id == i {
                    } else {
                        assert(nodes_after[i].typ == nodes0[i].typ);
                        assert(nodes0[i].spec_fanin0().id != repi
                            && nodes0[i].spec_fanin1().id != repi);
                    }
                }
            }
            assert(merged_nodes_rel(nodes0, nodes_after, repi, byi, compl));
        }
        // the interface edges follow the merge
        let nl = self.latchs.len();
        for k in 0..nl
            invariant
                nl == self.latchs@.len() == old(self).latchs@.len(),
                repi == rep as int,
                byi == byid as int,
                repi == replaced.id,
                byi == by.id,
                compl == (replaced.complement != by.complement),
                self.nodes@ == nodes_after,
                self.inputs == old(self).inputs,
                self.outputs == old(self).outputs,
                self.bads == old(self).bads,
                self.constraints == old(self).constraints,
                forall|k2: int|
                    k <= k2 < nl ==> (#[trigger] self.latchs@[k2]) == old(self).latchs@[k2],
                forall|k2: int|
                    0 <= k2 < k ==> {
                        let ol = old(self).latchs@[k2];
                        (#[trigger] self.latchs@[k2]) == (AigLatch {
                            next: rewire_edge(ol.next, repi, byi, compl),
                            ..ol
                        })
                    },
        {
            if self.latchs[k].next.node_id() == rep {
                let old_next = self.latchs[k].next;
                self.latchs[k].next = AigEdge::new(byid, old_next.compl() != compl);
            }
        }
        let ghost latchs_after = self.latchs@;
        let no = self.outputs.len();
        for k in 0..no
            invariant
                no == self.outputs@.len() == old(self).outputs@.len(),
                repi == rep as int,
                byi == byid as int,
                repi == replaced.id,
                byi == by.id,
                compl == (replaced.complement != by.complement),
                self.nodes@ == nodes_after,
                self.latchs@ == latchs_after,
                self.inputs == old(self).inputs,
                self.bads == old(self).bads,
                self.constraints == old(self).constraints,
                forall|k2: int|
                    k <= k2 < no ==> (#[trigger] self.outputs@[k2]) == old(self).outputs@[k2],
                forall|k2: int|
                    0 <= k2 < k ==> (#[trigger] self.outputs@[k2]) == rewire_edge(
                        old(self).outputs@[k2],
                        repi,
                        byi,
                        compl,
                    ),
        {
            if self.outputs[k].node_id() == rep {
                let e = self.outputs[k];
                self.outputs[k] = AigEdge::new(byid, e.compl() != compl);
            }
        }
        let ghost outputs_after = self.outputs@;
        let nb = self.bads.len();
        for k in 0..nb
            invariant
                nb == self.bads@.len() == old(self).bads@.len(),
                repi == rep as int,
                byi == byid as int,
                repi == replaced.id,
                byi == by.id,
                compl == (replaced.complement != by.complement),
                self.nodes@ == nodes_after,
                self.latchs@ == latchs_after,
                self.outputs@ == outputs_after,
                self.inputs == old(self).inputs,
                self.constraints == old(self).constraints,
                forall|k2: int|
                    k <= k2 < nb ==> (#[trigger] self.bads@[k2]) == old(self).bads@[k2],
                forall|k2: int|
                    0 <= k2 < k ==> (#[trigger] self.bads@[k2]) == rewire_edge(
                        old(self).bads@[k2],
                        repi,
                        byi,
                        compl,
                    ),
        {
            if self.bads[k].node_id() == rep {
                let e = self.bads[k];
                self.bads[k] = AigEdge::new(byid, e.compl() != compl);
            }
        }
    }
}

} // verus!
