//! Three-valued simulation of the graph.
//!
//! A node carries true, false, or the unknown X. Gates follow the
//! strong Kleene conjunction, so an X input may still yield a known
//! output when the other input is false.

use crate::aig::{Aig, AigNodeType};
use vstd::prelude::*;

verus! {

/// A three-valued logic value.
#[derive(Clone, Copy, PartialEq, Eq, Structural, Debug)]
pub enum TernaryValue {
    True,
    False,
    X,
}

impl TernaryValue {
    /// Three-valued negation: X stays X.
    pub open spec fn spec_negate(self) -> TernaryValue {
        match self {
            TernaryValue::True => TernaryValue::False,
            TernaryValue::False => TernaryValue::True,
            TernaryValue::X => TernaryValue::X,
        }
    }

    /// Three-valued conjunction: false dominates, X spreads
    /// otherwise.
    pub open spec fn spec_and(self, rhs: TernaryValue) -> TernaryValue {
        match (self, rhs) {
            (TernaryValue::False, _) => TernaryValue::False,
            (_, TernaryValue::False) => TernaryValue::False,
            (TernaryValue::True, TernaryValue::True) => TernaryValue::True,
            _ => TernaryValue::X,
        }
    }

    pub fn negate(self) -> (r: TernaryValue)
        ensures
            r == self.spec_negate(),
    {
        match self {
            TernaryValue::True => TernaryValue::False,
            TernaryValue::False => TernaryValue::True,
            TernaryValue::X => TernaryValue::X,
        }
    }

    /// Negates exactly when the condition holds.
    pub fn not_if(self, x: bool) -> (r: TernaryValue)
        ensures
            r == if x {
                self.spec_negate()
            } else {
                self
            },
    {
        if x {
            self.negate()
        } else {
            self
        }
    }

    /// Three-valued conjunction.
    pub fn band(self, rhs: TernaryValue) -> (r: TernaryValue)
        ensures
            r == self.spec_and(rhs),
    {
        match (self, rhs) {
            (TernaryValue::False, _) => TernaryValue::False,
            (_, TernaryValue::False) => TernaryValue::False,
            (TernaryValue::True, TernaryValue::True) => TernaryValue::True,
            _ => TernaryValue::X,
        }
    }

    /// Three-valued disjunction, by De Morgan from the conjunction.
    pub fn bor(self, rhs: TernaryValue) -> (r: TernaryValue)
        ensures
            r == self.spec_negate().spec_and(rhs.spec_negate()).spec_negate(),
    {
        self.negate().band(rhs.negate()).negate()
    }

    /// The known value of a Boolean.
    pub fn from_bool(value: bool) -> (r: TernaryValue)
        ensures
            r == if value {
                TernaryValue::True
            } else {
                TernaryValue::False
            },
    {
        if value {
            TernaryValue::True
        } else {
            TernaryValue::False
        }
    }
}

/// The simulation vector respects every gate of the graph.
pub open spec fn gates_consistent(aig: Aig, sim: Seq<TernaryValue>) -> bool {
    forall|i: int|
        0 <= i < aig.nodes@.len() && (#[trigger] aig.nodes@[i]).spec_is_and() ==> sim[i]
            == sim[aig.nodes@[i].spec_fanin0().id as int].not_if_spec(
            aig.nodes@[i].spec_fanin0().complement,
        ).spec_and(
            sim[aig.nodes@[i].spec_fanin1().id as int].not_if_spec(
                aig.nodes@[i].spec_fanin1().complement,
            ),
        )
}

impl TernaryValue {
    /// Conditional negation at the specification level.
    pub open spec fn not_if_spec(self, x: bool) -> TernaryValue {
        if x {
            self.spec_negate()
        } else {
            self
        }
    }
}

impl Aig {
    /// Simulates the graph under three-valued leaf values: the
    /// constant node is false, the given inputs and latches carry
    /// their values, every other leaf is X, and every gate follows
    /// its fanins.
    pub fn ternary_simulate(&self, primary_inputs: &Vec<TernaryValue>, latch_inputs: &Vec<
        TernaryValue>) -> (r: Vec<TernaryValue>)
        requires
            self.wf(),
            primary_inputs@.len() == self.inputs@.len(),
            latch_inputs@.len() == self.latchs@.len(),
            forall|k: int|
                0 <= k < self.inputs@.len() ==> self.nodes@[(#[trigger] self.inputs@[k])
                    as int].typ is PrimeInput,
            forall|k: int|
                0 <= k < self.latchs@.len() ==> self.nodes@[(#[trigger] self.latchs@[k]).input
                    as int].typ is LatchInput,
            forall|a: int, b: int|
                0 <= a < b < self.inputs@.len() ==> self.inputs@[a] != self.inputs@[b],
            forall|a: int, b: int|
                0 <= a < b < self.latchs@.len() ==> (#[trigger] self.latchs@[a]).input != (
                #[trigger] self.latchs@[b]).input,
        ensures
            r@.len() == self.nodes@.len(),
            r@[0] == TernaryValue::False,
            forall|k: int|
                0 <= k < self.inputs@.len() ==> r@[(#[trigger] self.inputs@[k]) as int]
                    == primary_inputs@[k],
            forall|k: int|
                0 <= k < self.latchs@.len() ==> r@[(#[trigger] self.latchs@[k]).input as int]
                    == latch_inputs@[k],
            gates_consistent(*self, r@),
    {
        let n = self.nodes.len();
        let mut ans: Vec<TernaryValue> = Vec::new();
        for i in 0..n
            invariant
                ans@.len() == i,
                forall|q: int| 0 <= q < i ==> ans@[q] == TernaryValue::X,
        {
            ans.push(TernaryValue::X);
        }
        ans.set(0, TernaryValue::False);
        let ni = self.inputs.len();
        for k in 0..ni
            invariant
                ni == self.inputs@.len() == primary_inputs@.len(),
                ans@.len() == n == self.nodes@.len(),
                self.wf(),
                ans@[0] == TernaryValue::False,
                forall|k2: int|
                    0 <= k2 < ni ==> self.nodes@[(#[trigger] self.inputs@[k2])
                        as int].typ is PrimeInput,
                forall|a: int, b: int|
                    0 <= a < b < ni ==> self.inputs@[a] != self.inputs@[b],
                forall|k2: int|
                    0 <= k2 < k ==> ans@[(#[trigger] self.inputs@[k2]) as int]
                        == primary_inputs@[k2],
        {
            let id = self.inputs[k];
            ans.set(id, primary_inputs[k]);
            proof {
                assert(self.nodes@[self.inputs@[k as int] as int].typ is PrimeInput);
                assert(!(self.nodes@[0].typ is PrimeInput));
                assert(self.inputs@[k as int] != 0);
            }
        }
        let nl = self.latchs.len();
        for k in 0..nl
            invariant
                nl == self.latchs@.len() == latch_inputs@.len(),
                ni == self.inputs@.len() == primary_inputs@.len(),
                ans@.len() == n == self.nodes@.len(),
                self.wf(),
                ans@[0] == TernaryValue::False,
                forall|k2: int|
                    0 <= k2 < ni ==> self.nodes@[(#[trigger] self.inputs@[k2])
                        as int].typ is PrimeInput,
                forall|k2: int|
                    0 <= k2 < nl ==> self.nodes@[(#[trigger] self.latchs@[k2]).input
                        as int].typ is LatchInput,
                forall|a: int, b: int|
                    0 <= a < b < nl ==> (#[trigger] self.latchs@[a]).input != (
                    #[trigger] self.latchs@[b]).input,
                forall|k2: int|
                    0 <= k2 < ni ==> ans@[(#[trigger] self.inputs@[k2]) as int]
                        == primary_inputs@[k2],
                forall|k2: int|
                    0 <= k2 < k ==> ans@[(#[trigger] self.latchs@[k2]).input as int]
                        == latch_inputs@[k2],
        {
            let id = self.latchs[k].input;
            ans.set(id, latch_inputs[k]);
            proof {
                assert(self.nodes@[self.latchs@[k as int].input as int].typ is LatchInput);
                assert(!(self.nodes@[0].typ is LatchInput));
                assert(self.latchs@[k as int].input != 0);
                assert forall|k2: int|
                    0 <= k2 < ni implies ans@[(#[trigger] self.inputs@[k2]) as int]
                    == primary_inputs@[k2] by {
                    assert(self.nodes@[self.inputs@[k2] as int].typ is PrimeInput);
                    assert(self.inputs@[k2] != self.latchs@[k as int].input);
                }
            }
        }
        let mut i: usize = 1;
        while i < n
            invariant
                nl == self.latchs@.len() == latch_inputs@.len(),
                ni == self.inputs@.len() == primary_inputs@.len(),
                ans@.len() == n == self.nodes@.len(),
                self.wf(),
                1 <= i <= n,
                ans@[0] == TernaryValue::False,
                forall|k2: int|
                    0 <= k2 < ni ==> self.nodes@[(#[trigger] self.inputs@[k2])
                        as int].typ is PrimeInput,
                forall|k2: int|
                    0 <= k2 < nl ==> self.nodes@[(#[trigger] self.latchs@[k2]).input
                        as int].typ is LatchInput,
                forall|k2: int|
                    0 <= k2 < ni ==> ans@[(#[trigger] self.inputs@[k2]) as int]
                        == primary_inputs@[k2],
                forall|k2: int|
                    0 <= k2 < nl ==> ans@[(#[trigger] self.latchs@[k2]).input as int]
                        == latch_inputs@[k2],
                forall|q: int|
                    0 <= q < i && (#[trigger] self.nodes@[q]).spec_is_and() ==> ans@[q]
                        == ans@[self.nodes@[q].spec_fanin0().id as int].not_if_spec(
                        self.nodes@[q].spec_fanin0().complement,
                    ).spec_and(
                        ans@[self.nodes@[q].spec_fanin1().id as int].not_if_spec(
                            self.nodes@[q].spec_fanin1().complement,
                        ),
                    ),
            decreases n - i,
        {
            if self.nodes[i].is_and() {
                let f0 = self.nodes[i].fanin0();
                let f1 = self.nodes[i].fanin1();
                let v0 = ans[f0.node_id()].not_if(f0.compl());
                let v1 = ans[f1.node_id()].not_if(f1.compl());
                ans.set(i, v0.band(v1));
                proof {
                    assert(!(self.nodes@[0].typ is And));
                    assert forall|k2: int|
                        0 <= k2 < ni implies ans@[(#[trigger] self.inputs@[k2]) as int]
                        == primary_inputs@[k2] by {
                        assert(self.nodes@[self.inputs@[k2] as int].typ is PrimeInput);
                    }
                    assert forall|k2: int|
                        0 <= k2 < nl implies ans@[(#[trigger] self.latchs@[k2]).input
                        as int] == latch_inputs@[k2] by {
                        assert(self.nodes@[self.latchs@[k2].input as int].typ is LatchInput);
                    }
                    assert forall|q: int|
                        0 <= q < i + 1 && (#[trigger] self.nodes@[q]).spec_is_and()
                            implies ans@[q] == ans@[self.nodes@[q].spec_fanin0().id
                        as int].not_if_spec(self.nodes@[q].spec_fanin0().complement).spec_and(
                        ans@[self.nodes@[q].spec_fanin1().id as int].not_if_spec(
                            self.nodes@[q].spec_fanin1().complement,
                        ),
                    ) by {
                        if q < i {
                            assert(self.nodes@[q].spec_fanin0().id < q
                                && self.nodes@[q].spec_fanin1().id < q);
                        }
                    }
                }
            }
            i += 1;
        }
        ans
    }

    /// Re-evaluates the simulation after one leaf changes: the leaf
    /// takes its new value and every gate is brought back in line
    /// with its fanins.
    pub fn update_ternary_simulate(&self, simulation: Vec<TernaryValue>, input: usize,
        value: TernaryValue) -> (r: Vec<TernaryValue>)
        requires
            self.wf(),
            simulation@.len() == self.nodes@.len(),
            input < self.nodes@.len(),
            !self.nodes@[input as int].spec_is_and(),
        ensures
            r@.len() == self.nodes@.len(),
            r@[input as int] == value,
            forall|q: int|
                0 <= q < r@.len() && !(#[trigger] self.nodes@[q]).spec_is_and() && q != input
                    ==> r@[q] == simulation@[q],
            gates_consistent(*self, r@),
    {
        let mut ans = simulation;
        ans.set(input, value);
        let n = self.nodes.len();
        let mut i: usize = 1;
        while i < n
            invariant
                ans@.len() == n == self.nodes@.len(),
                self.wf(),
                1 <= i <= n,
                input < n,
                !self.nodes@[input as int].spec_is_and(),
                ans@[input as int] == value,
                forall|q: int|
                    0 <= q < n && !(#[trigger] self.nodes@[q]).spec_is_and() && q != input
                        ==> ans@[q] == simulation@[q],
                forall|q: int|
                    0 <= q < i && (#[trigger] self.nodes@[q]).spec_is_and() ==> ans@[q]
                        == ans@[self.nodes@[q].spec_fanin0().id as int].not_if_spec(
                        self.nodes@[q].spec_fanin0().complement,
                    ).spec_and(
                        ans@[self.nodes@[q].spec_fanin1().id as int].not_if_spec(
                            self.nodes@[q].spec_fanin1().complement,
                        ),
                    ),
            decreases n - i,
        {
            if self.nodes[i].is_and() {
                let f0 = self.nodes[i].fanin0();
                let f1 = self.nodes[i].fanin1();
                let v0 = ans[f0.node_id()].not_if(f0.compl());
                let v1 = ans[f1.node_id()].not_if(f1.compl());
                ans.set(i, v0.band(v1));
                proof {
                    assert forall|q: int|
                        0 <= q < i + 1 && (#[trigger] self.nodes@[q]).spec_is_and()
                            implies ans@[q] == ans@[self.nodes@[q].spec_fanin0().id
                        as int].not_if_spec(self.nodes@[q].spec_fanin0().complement).spec_and(
                        ans@[self.nodes@[q].spec_fanin1().id as int].not_if_spec(
                            self.nodes@[q].spec_fanin1().complement,
                        ),
                    ) by {
                        if q < i {
                            assert(self.nodes@[q].spec_fanin0().id < q
                                && self.nodes@[q].spec_fanin1().id < q);
                        }
                    }
                }
            }
            i += 1;
        }
        ans
    }
}

} // verus!
