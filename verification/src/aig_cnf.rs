//! CNF encodings of the graph's gates.
//!
//! Each AND gate contributes three Tseitin clauses over the node
//! variables; the encoders are proved against clause satisfaction:
//! an assignment satisfies the produced CNF exactly when it respects
//! every encoded gate (and asserted constraint). The optimized
//! encoder restricts itself to the fanin cone of a given edge list.

use crate::aig::{in_cone, logic_hits, Aig, AigEdge, AigNode};
use crate::cube::{Clause, Cnf};
use crate::lits::{Lit, Var, MAX_VAR};
use vstd::prelude::*;

verus! {

/// A literal holds under an assignment of the node variables.
pub open spec fn lit_sat(assign: Seq<bool>, l: Lit) -> bool {
    assign[l.spec_var().id as int] == l.spec_polarity()
}

/// A clause holds when one of its literals does.
pub open spec fn clause_sat(assign: Seq<bool>, cl: Seq<Lit>) -> bool {
    exists|i: int| 0 <= i < cl.len() && lit_sat(assign, #[trigger] cl[i])
}

/// A CNF holds when every clause does.
pub open spec fn cnf_sat(assign: Seq<bool>, cnf: Seq<Seq<Lit>>) -> bool {
    forall|j: int| 0 <= j < cnf.len() ==> clause_sat(assign, #[trigger] cnf[j])
}

/// The Boolean value of an edge when the assignment is read as
/// giving every node its variable's value.
pub open spec fn edge_assign_val(assign: Seq<bool>, e: AigEdge) -> bool {
    assign[e.id as int] != e.complement
}

/// The assignment respects AND node `i`: the node variable
/// carries the conjunction of the fanin values.
pub open spec fn gate_consistent(nodes: Seq<AigNode>, assign: Seq<bool>, i: int) -> bool {
    nodes[i].spec_is_and() ==> assign[i] == (edge_assign_val(assign, nodes[i].spec_fanin0())
        && edge_assign_val(assign, nodes[i].spec_fanin1()))
}

/// Appending a clause to a CNF conjoins it.
pub proof fn lemma_cnf_sat_push_pub(assign: Seq<bool>, cnf: Seq<Seq<Lit>>, cl: Seq<Lit>)
    ensures
        cnf_sat(assign, cnf.push(cl)) == (cnf_sat(assign, cnf) && clause_sat(assign, cl)),
{
    let cnf2 = cnf.push(cl);
    if cnf_sat(assign, cnf2) {
        assert forall|j: int| 0 <= j < cnf.len() implies clause_sat(
            assign,
            #[trigger] cnf[j],
        ) by {
            assert(cnf2[j] == cnf[j]);
        }
        assert(cnf2[cnf.len() as int] == cl);
    }
    if cnf_sat(assign, cnf) && clause_sat(assign, cl) {
        assert forall|j: int| 0 <= j < cnf2.len() implies clause_sat(
            assign,
            #[trigger] cnf2[j],
        ) by {
            if j < cnf.len() {
                assert(cnf2[j] == cnf[j]);
            } else {
                assert(cnf2[j] == cl);
            }
        }
    }
}

impl Aig {
    /// The Tseitin clauses of AND node `i`, pushed onto the CNF:
    /// together they hold exactly when the assignment respects the
    /// gate.
    fn push_gate_clauses(&self, i: usize, ans: &mut Cnf)
        requires
            self.wf(),
            i < self.nodes@.len(),
            self.nodes@[i as int].spec_is_and(),
            self.nodes@.len() <= MAX_VAR,
        ensures
            final(ans)@.len() == old(ans)@.len() + 3,
            old(ans)@.is_prefix_of(final(ans)@),
            forall|assign: Seq<bool>|
                assign.len() >= self.nodes@.len() ==> (#[trigger] cnf_sat(
                    assign,
                    final(ans)@,
                ) == (cnf_sat(assign, old(ans)@) && gate_consistent(
                    self.nodes@,
                    assign,
                    i as int,
                ))),
    {
        let node = &self.nodes[i];
        let f0 = node.fanin0();
        let f1 = node.fanin1();
        let xi = Var::new(i);
        let v0 = Var::new(f0.node_id());
        let v1 = Var::new(f1.node_id());
        let mut c1 = Clause::new();
        c1.push(Lit::new(xi, false));
        c1.push(Lit::new(v0, !f0.compl()));
        let mut c2 = Clause::new();
        c2.push(Lit::new(xi, false));
        c2.push(Lit::new(v1, !f1.compl()));
        let mut c3 = Clause::new();
        c3.push(Lit::new(xi, true));
        c3.push(Lit::new(v0, f0.compl()));
        c3.push(Lit::new(v1, f1.compl()));
        let ghost g1 = c1@;
        let ghost g2 = c2@;
        let ghost g3 = c3@;
        ans.add_clause(c1);
        let ghost a1 = ans@;
        ans.add_clause(c2);
        let ghost a2 = ans@;
        ans.add_clause(c3);
        proof {
            assert forall|assign: Seq<bool>| assign.len() >= self.nodes@.len() implies (
            #[trigger] cnf_sat(assign, final(ans)@) == (cnf_sat(assign, old(ans)@)
                && gate_consistent(self.nodes@, assign, i as int))) by {
                lemma_cnf_sat_push_pub(assign, old(ans)@, g1);
                lemma_cnf_sat_push_pub(assign, a1, g2);
                lemma_cnf_sat_push_pub(assign, a2, g3);
                let ev0 = edge_assign_val(assign, f0);
                let ev1 = edge_assign_val(assign, f1);
                assert(clause_sat(assign, g1) == (!assign[i as int] || ev0)) by {
                    assert(lit_sat(assign, g1[0]) == !assign[i as int]);
                    assert(lit_sat(assign, g1[1]) == ev0);
                    if !assign[i as int] || ev0 {
                        if !assign[i as int] {
                            assert(lit_sat(assign, g1[0]));
                        } else {
                            assert(lit_sat(assign, g1[1]));
                        }
                    }
                }
                assert(clause_sat(assign, g2) == (!assign[i as int] || ev1)) by {
                    assert(lit_sat(assign, g2[0]) == !assign[i as int]);
                    assert(lit_sat(assign, g2[1]) == ev1);
                    if !assign[i as int] || ev1 {
                        if !assign[i as int] {
                            assert(lit_sat(assign, g2[0]));
                        } else {
                            assert(lit_sat(assign, g2[1]));
                        }
                    }
                }
                assert(clause_sat(assign, g3) == (assign[i as int] || !ev0 || !ev1)) by {
                    assert(lit_sat(assign, g3[0]) == assign[i as int]);
                    assert(lit_sat(assign, g3[1]) == !ev0);
                    assert(lit_sat(assign, g3[2]) == !ev1);
                    if assign[i as int] || !ev0 || !ev1 {
                        if assign[i as int] {
                            assert(lit_sat(assign, g3[0]));
                        } else if !ev0 {
                            assert(lit_sat(assign, g3[1]));
                        } else {
                            assert(lit_sat(assign, g3[2]));
                        }
                    }
                }
            }
        }
    }

    /// The flags of the fanin logic cone of the edge list: entry `i`
    /// says whether node `i` feeds, directly or through gates, one
    /// of the listed edges.
    pub fn fanin_logic_cone(&self, logic: &Vec<AigEdge>) -> (r: Vec<bool>)
        requires
            self.wf(),
            forall|k: int|
                0 <= k < logic@.len() ==> (#[trigger] logic@[k]).id < self.nodes@.len(),
        ensures
            r@.len() == self.nodes@.len(),
            forall|i: int|
                0 <= i < r@.len() ==> r@[i] == in_cone(self.nodes@, logic@, i),
    {
        let n = self.nodes.len();
        let mut flag: Vec<bool> = Vec::new();
        for i in 0..n
            invariant
                flag@.len() == i,
                forall|q: int| 0 <= q < i ==> !(#[trigger] flag@[q]),
        {
            flag.push(false);
        }
        let nl = logic.len();
        for k in 0..nl
            invariant
                nl == logic@.len(),
                flag@.len() == n == self.nodes@.len(),
                forall|q: int|
                    0 <= q < logic@.len() ==> (#[trigger] logic@[q]).id < n,
                forall|q: int|
                    0 <= q < n ==> #[trigger] flag@[q] == exists|k2: int|
                        0 <= k2 < k && (#[trigger] logic@[k2]).id == q,
        {
            let ghost pre = flag@;
            let id = logic[k].node_id();
            flag.set(id, true);
            proof {
                assert forall|q: int| 0 <= q < n implies #[trigger] flag@[q] == exists|k2: int|
                    0 <= k2 < k + 1 && (#[trigger] logic@[k2]).id == q by {
                    if q == id {
                        assert(logic@[k as int].id == q);
                    } else {
                        assert(flag@[q] == pre[q]);
                    }
                }
            }
        }
        proof {
            assert forall|q: int| 0 <= q < n implies #[trigger] flag@[q] == logic_hits(
                logic@,
                q,
            ) by {
            }
            crate::aig::lemma_cone_from_len(self.nodes@, logic@, n as int);
            assert(flag@ =~= crate::aig::cone_from(self.nodes@, logic@, n as int));
        }
        let mut m = n;
        while m > 0
            invariant
                flag@.len() == n == self.nodes@.len(),
                self.wf(),
                m <= n,
                flag@ == crate::aig::cone_from(self.nodes@, logic@, m as int),
            decreases m,
        {
            let id = m - 1;
            let ghost pre = flag@;
            if flag[id] && self.nodes[id].is_and() {
                let f0 = self.nodes[id].fanin0().node_id();
                let f1 = self.nodes[id].fanin1().node_id();
                flag.set(f0, true);
                flag.set(f1, true);
                proof {
                    assert(flag@ =~= crate::aig::cone_step(self.nodes@, pre, id as int));
                }
            } else {
                proof {
                    assert(flag@ =~= crate::aig::cone_step(self.nodes@, pre, id as int));
                }
            }
            m = id;
        }
        flag
    }

    /// The Tseitin encoding of every gate, with the constraint
    /// edges asserted as unit clauses: an assignment satisfies it
    /// exactly when it respects every gate and makes every
    /// constraint edge true.
    pub fn get_cnf(&self) -> (r: Cnf)
        requires
            self.wf(),
            self.nodes@.len() <= MAX_VAR,
        ensures
            forall|assign: Seq<bool>|
                assign.len() >= self.nodes@.len() ==> (#[trigger] cnf_sat(assign, r@) == ((
                forall|i: int|
                    0 <= i < self.nodes@.len() ==> gate_consistent(
                        self.nodes@,
                        assign,
                        i,
                    )) && (forall|k: int|
                    0 <= k < self.constraints@.len() ==> edge_assign_val(
                        assign,
                        #[trigger] self.constraints@[k],
                    )))),
    {
        let mut ans = Cnf::new();
        let n = self.nodes.len();
        let mut i: usize = 1;
        proof {
            assert forall|assign: Seq<bool>|
                assign.len() >= self.nodes@.len() implies #[trigger] cnf_sat(assign, ans@)
                == true by {
            }
        }
        while i < n
            invariant
                n == self.nodes@.len() <= MAX_VAR,
                1 <= i <= n,
                self.wf(),
                forall|assign: Seq<bool>|
                    assign.len() >= self.nodes@.len() ==> (#[trigger] cnf_sat(assign, ans@)
                        == forall|i2: int|
                        0 <= i2 < i ==> gate_consistent(self.nodes@, assign, i2)),
            decreases n - i,
        {
            if self.nodes[i].is_and() {
                let ghost pre = ans@;
                self.push_gate_clauses(i, &mut ans);
                proof {
                    assert forall|assign: Seq<bool>|
                        assign.len() >= self.nodes@.len() implies (#[trigger] cnf_sat(
                        assign,
                        ans@,
                    ) == forall|i2: int|
                        0 <= i2 < i + 1 ==> gate_consistent(self.nodes@, assign, i2)) by {
                        assert(cnf_sat(assign, ans@) == (cnf_sat(assign, pre)
                            && gate_consistent(self.nodes@, assign, i as int)));
                        if cnf_sat(assign, ans@) {
                            assert forall|i2: int|
                                0 <= i2 < i + 1 implies gate_consistent(
                                self.nodes@,
                                assign,
                                i2,
                            ) by {}
                        }
                    }
                }
            } else {
                proof {
                    assert forall|assign: Seq<bool>|
                        assign.len() >= self.nodes@.len() implies (#[trigger] cnf_sat(
                        assign,
                        ans@,
                    ) == forall|i2: int|
                        0 <= i2 < i + 1 ==> gate_consistent(self.nodes@, assign, i2)) by {
                        if cnf_sat(assign, ans@) {
                            assert forall|i2: int|
                                0 <= i2 < i + 1 implies gate_consistent(
                                self.nodes@,
                                assign,
                                i2,
                            ) by {
                                if i2 == i {
                                    assert(!self.nodes@[i2].spec_is_and());
                                }
                            }
                        }
                    }
                }
            }
            i += 1;
        }
        let nc = self.constraints.len();
        for k in 0..nc
            invariant
                nc == self.constraints@.len(),
                n == self.nodes@.len() <= MAX_VAR,
                self.wf(),
                forall|assign: Seq<bool>|
                    assign.len() >= self.nodes@.len() ==> (#[trigger] cnf_sat(assign, ans@)
                        == ((forall|i2: int|
                        0 <= i2 < n ==> gate_consistent(self.nodes@, assign, i2)) && (forall|
                        k2: int,
                    |
                        0 <= k2 < k ==> edge_assign_val(
                            assign,
                            #[trigger] self.constraints@[k2],
                        )))),
        {
            let e = self.constraints[k];
            let mut c = Clause::new();
            c.push(e.to_lit());
            let ghost cl = c@;
            let ghost pre = ans@;
            ans.add_clause(c);
            proof {
                assert forall|assign: Seq<bool>|
                    assign.len() >= self.nodes@.len() implies (#[trigger] cnf_sat(
                    assign,
                    ans@,
                ) == ((forall|i2: int|
                    0 <= i2 < n ==> gate_consistent(self.nodes@, assign, i2)) && (forall|
                    k2: int,
                |
                    0 <= k2 < k + 1 ==> edge_assign_val(
                        assign,
                        #[trigger] self.constraints@[k2],
                    )))) by {
                    lemma_cnf_sat_push_pub(assign, pre, cl);
                    assert(lit_sat(assign, cl[0]) == edge_assign_val(assign, e));
                    assert(clause_sat(assign, cl) == edge_assign_val(assign, e)) by {
                        if edge_assign_val(assign, e) {
                            assert(lit_sat(assign, cl[0]));
                        }
                    }
                    if cnf_sat(assign, ans@) {
                        assert forall|k2: int|
                            0 <= k2 < k + 1 implies edge_assign_val(
                            assign,
                            #[trigger] self.constraints@[k2],
                        ) by {}
                    }
                }
            }
        }
        ans
    }

    /// The Tseitin encoding restricted to the fanin cone of the
    /// edge list: an assignment satisfies it exactly when it
    /// respects every gate of the cone.
    pub fn get_optimized_cnf(&self, logic: &Vec<AigEdge>) -> (r: Cnf)
        requires
            self.wf(),
            self.nodes@.len() <= MAX_VAR,
            forall|k: int|
                0 <= k < logic@.len() ==> (#[trigger] logic@[k]).id < self.nodes@.len(),
        ensures
            forall|assign: Seq<bool>|
                assign.len() >= self.nodes@.len() ==> (#[trigger] cnf_sat(assign, r@)
                    == forall|i: int|
                    0 <= i < self.nodes@.len() && in_cone(self.nodes@, logic@, i)
                        ==> gate_consistent(self.nodes@, assign, i)),
    {
        let flags = self.fanin_logic_cone(logic);
        let mut ans = Cnf::new();
        let n = self.nodes.len();
        let mut m = n;
        while m > 1
            invariant
                n == self.nodes@.len() <= MAX_VAR,
                flags@.len() == n,
                1 <= m <= n || (n == 0 && m == 0),
                self.wf(),
                forall|i: int|
                    0 <= i < n ==> flags@[i] == in_cone(self.nodes@, logic@, i),
                forall|assign: Seq<bool>|
                    assign.len() >= self.nodes@.len() ==> (#[trigger] cnf_sat(assign, ans@)
                        == forall|i2: int|
                        m <= i2 < n && in_cone(self.nodes@, logic@, i2) ==> gate_consistent(
                            self.nodes@,
                            assign,
                            i2,
                        )),
            decreases m,
        {
            let i = m - 1;
            if flags[i] && self.nodes[i].is_and() {
                let ghost pre = ans@;
                self.push_gate_clauses(i, &mut ans);
                proof {
                    assert forall|assign: Seq<bool>|
                        assign.len() >= self.nodes@.len() implies (#[trigger] cnf_sat(
                        assign,
                        ans@,
                    ) == forall|i2: int|
                        i <= i2 < n && in_cone(self.nodes@, logic@, i2) ==> gate_consistent(
                            self.nodes@,
                            assign,
                            i2,
                        )) by {
                        assert(cnf_sat(assign, ans@) == (cnf_sat(assign, pre)
                            && gate_consistent(self.nodes@, assign, i as int)));
                        if cnf_sat(assign, ans@) {
                            assert forall|i2: int|
                                i <= i2 < n && in_cone(self.nodes@, logic@, i2)
                                    implies gate_consistent(self.nodes@, assign, i2) by {}
                        }
                    }
                }
            } else {
                proof {
                    assert forall|assign: Seq<bool>|
                        assign.len() >= self.nodes@.len() implies (#[trigger] cnf_sat(
                        assign,
                        ans@,
                    ) == forall|i2: int|
                        i <= i2 < n && in_cone(self.nodes@, logic@, i2) ==> gate_consistent(
                            self.nodes@,
                            assign,
                            i2,
                        )) by {
                        if cnf_sat(assign, ans@) {
                            assert forall|i2: int|
                                i <= i2 < n && in_cone(self.nodes@, logic@, i2)
                                    implies gate_consistent(self.nodes@, assign, i2) by {
                                if i2 == i {
                                    if self.nodes@[i2].spec_is_and() {
                                        assert(flags@[i2]);
                                        assert(false);
                                    }
                                }
                            }
                        }
                    }
                }
            }
            m = i;
        }
        proof {
            assert forall|assign: Seq<bool>|
                assign.len() >= self.nodes@.len() implies (#[trigger] cnf_sat(assign, ans@)
                == forall|i: int|
                0 <= i < self.nodes@.len() && in_cone(self.nodes@, logic@, i)
                    ==> gate_consistent(self.nodes@, assign, i)) by {
                if cnf_sat(assign, ans@) {
                    assert forall|i: int|
                        0 <= i < n && in_cone(self.nodes@, logic@, i)
                            implies gate_consistent(self.nodes@, assign, i) by {
                        if i == 0 {
                            assert(!self.nodes@[0].spec_is_and());
                        }
                    }
                }
            }
        }
        ans
    }
}

} // verus!
