//! The transition model: the canonical form of the checked system.
//!
//! It holds the primary-input, latch and prime variables, the partial
//! init predicate, the invariant-constraint literals, the bad
//! literal, the transition CNF, and the two maps that link each latch
//! variable with the prime variable standing for its next-state
//! value.

use crate::aig::{Aig, AigEdge};
use crate::aig_cnf::{clause_sat, cnf_sat, edge_assign_val, gate_consistent, lit_sat};
use crate::cube::{lits_subset, seq_negate, Clause, Cnf, Cube};
use crate::lits::{Lit, Var, MAX_VAR};
use vstd::prelude::*;

verus! {

/// The transition model. The `next` and `previous` tables are
/// indexed by variable identifier; an entry is `Some` exactly for
/// latch variables (respectively prime variables).
pub struct Model {
    pub inputs: Vec<Var>,
    pub latchs: Vec<Var>,
    pub primes: Vec<Var>,
    pub init: Vec<Option<bool>>,
    pub constraints: Vec<Lit>,
    pub bad: Lit,
    pub trans: Cnf,
    pub num_var: usize,
    pub next: Vec<Option<Var>>,
    pub previous: Vec<Option<Var>>,
}

impl Model {
    /// The prime variable of a latch variable, if it has one.
    pub open spec fn spec_next_of(self, v: Var) -> Option<Var> {
        if v.id < self.next@.len() {
            self.next@[v.id as int]
        } else {
            None
        }
    }

    /// The latch variable of a prime variable, if it has one.
    pub open spec fn spec_previous_of(self, v: Var) -> Option<Var> {
        if v.id < self.previous@.len() {
            self.previous@[v.id as int]
        } else {
            None
        }
    }

    /// A literal is mapped through a variable table with its
    /// polarity kept.
    pub open spec fn spec_lit_through(l: Lit, v: Var) -> Lit {
        Lit {
            code: (2 * v.id + if l.spec_polarity() {
                0u32
            } else {
                1u32
            }) as u32,
        }
    }

    /// The literal speaks of a latch variable with a prime partner.
    pub open spec fn lit_has_next(self, l: Lit) -> bool {
        self.spec_next_of(l.spec_var()) is Some
    }

    /// The literal speaks of a prime variable with a latch partner.
    pub open spec fn lit_has_previous(self, l: Lit) -> bool {
        self.spec_previous_of(l.spec_var()) is Some
    }

    /// The two tables are inverse partial maps over variables small
    /// enough for literals, and they link `latchs` to `primes`
    /// entry by entry.
    pub open spec fn maps_wf(self) -> bool {
        &&& forall|i: int|
            0 <= i < self.next@.len() && (#[trigger] self.next@[i]) is Some ==> {
                let p = self.next@[i]->Some_0;
                &&& p.id <= MAX_VAR
                &&& p.id < self.previous@.len()
                &&& self.previous@[p.id as int] == Some(Var { id: i as u32 })
            }
        &&& forall|i: int|
            0 <= i < self.previous@.len() && (#[trigger] self.previous@[i]) is Some ==> {
                let v = self.previous@[i]->Some_0;
                &&& v.id <= MAX_VAR
                &&& v.id < self.next@.len()
                &&& self.next@[v.id as int] == Some(Var { id: i as u32 })
            }
        &&& self.latchs@.len() == self.primes@.len()
        &&& forall|k: int|
            0 <= k < self.latchs@.len() ==> {
                &&& (#[trigger] self.latchs@[k]).id < self.next@.len()
                &&& self.latchs@[k].id <= MAX_VAR
                &&& self.next@[self.latchs@[k].id as int] == Some(self.primes@[k])
            }
        &&& forall|a: int, b: int|
            0 <= a < b < self.latchs@.len() ==> self.latchs@[a].id != self.latchs@[b].id
        &&& forall|k: int|
            0 <= k < self.inputs@.len() ==> (#[trigger] self.inputs@[k]).id <= MAX_VAR
    }

    /// The init predicate's verdict on a cube: false exactly when
    /// some literal's variable has a defined initial value of the
    /// opposite polarity.
    pub open spec fn spec_cube_subsume_init(self, c: Seq<Lit>) -> bool {
        forall|i: int|
            0 <= i < c.len() ==> {
                let v = (#[trigger] c[i]).spec_var();
                v.id < self.init@.len() && self.init@[v.id as int] is Some
                    ==> self.init@[v.id as int]->Some_0 == c[i].spec_polarity()
            }
    }

    /// The prime literal of a latch literal.
    pub fn lit_next(&self, lit: Lit) -> (r: Lit)
        requires
            self.lit_has_next(lit),
            self.maps_wf(),
        ensures
            r == Model::spec_lit_through(lit, self.spec_next_of(lit.spec_var())->Some_0),
            r.spec_polarity() == lit.spec_polarity(),
            self.lit_has_previous(r),
            self.spec_previous_of(r.spec_var()) == Some(lit.spec_var()),
    {
        let v = lit.var();
        let p = match self.next[v.id as usize] {
            Some(p) => p,
            None => {
                proof {
                    assert(false);
                }
                Var { id: 0 }
            },
        };
        Lit::new(p, lit.polarity())
    }

    /// The latch literal of a prime literal.
    pub fn lit_previous(&self, lit: Lit) -> (r: Lit)
        requires
            self.lit_has_previous(lit),
            self.maps_wf(),
        ensures
            r == Model::spec_lit_through(lit, self.spec_previous_of(lit.spec_var())->Some_0),
            r.spec_polarity() == lit.spec_polarity(),
            self.lit_has_next(r),
            self.spec_next_of(r.spec_var()) == Some(lit.spec_var()),
    {
        let v = lit.var();
        let p = match self.previous[v.id as usize] {
            Some(p) => p,
            None => {
                proof {
                    assert(false);
                }
                Var { id: 0 }
            },
        };
        Lit::new(p, lit.polarity())
    }

    /// The whole cube has prime partners.
    pub open spec fn cube_has_next(self, c: Seq<Lit>) -> bool {
        forall|i: int| 0 <= i < c.len() ==> self.lit_has_next(#[trigger] c[i])
    }

    /// The whole cube has latch partners.
    pub open spec fn cube_has_previous(self, c: Seq<Lit>) -> bool {
        forall|i: int| 0 <= i < c.len() ==> self.lit_has_previous(#[trigger] c[i])
    }

    /// The next-state projection of a cube, literal by literal.
    pub fn cube_next(&self, cube: &Cube) -> (r: Cube)
        requires
            self.cube_has_next(cube@),
            self.maps_wf(),
        ensures
            r@.len() == cube@.len(),
            forall|i: int|
                0 <= i < cube@.len() ==> (#[trigger] r@[i]) == Model::spec_lit_through(
                    cube@[i],
                    self.spec_next_of(cube@[i].spec_var())->Some_0,
                ),
            self.cube_has_previous(r@),
            forall|i: int|
                0 <= i < cube@.len() ==> self.spec_previous_of(
                    (#[trigger] r@[i]).spec_var(),
                ) == Some(cube@[i].spec_var()),
    {
        let mut r = Cube::new();
        let n = cube.len();
        for i in 0..n
            invariant
                n == cube@.len(),
                self.cube_has_next(cube@),
                self.maps_wf(),
                r@.len() == i,
                forall|k: int|
                    0 <= k < i ==> (#[trigger] r@[k]) == Model::spec_lit_through(
                        cube@[k],
                        self.spec_next_of(cube@[k].spec_var())->Some_0,
                    ),
                forall|k: int|
                    0 <= k < i ==> self.lit_has_previous(#[trigger] r@[k])
                        && self.spec_previous_of(r@[k].spec_var()) == Some(
                        cube@[k].spec_var()),
        {
            r.push(self.lit_next(cube.get(i)));
        }
        r
    }

    /// The present-state projection of a cube of prime literals.
    pub fn cube_previous(&self, cube: &Cube) -> (r: Cube)
        requires
            self.cube_has_previous(cube@),
            self.maps_wf(),
        ensures
            r@.len() == cube@.len(),
            forall|i: int|
                0 <= i < cube@.len() ==> (#[trigger] r@[i]) == Model::spec_lit_through(
                    cube@[i],
                    self.spec_previous_of(cube@[i].spec_var())->Some_0,
                ),
            self.cube_has_next(r@),
            forall|i: int|
                0 <= i < cube@.len() ==> self.spec_next_of((#[trigger] r@[i]).spec_var())
                    == Some(cube@[i].spec_var()),
    {
        let mut r = Cube::new();
        let n = cube.len();
        for i in 0..n
            invariant
                n == cube@.len(),
                self.cube_has_previous(cube@),
                self.maps_wf(),
                r@.len() == i,
                forall|k: int|
                    0 <= k < i ==> (#[trigger] r@[k]) == Model::spec_lit_through(
                        cube@[k],
                        self.spec_previous_of(cube@[k].spec_var())->Some_0,
                    ),
                forall|k: int|
                    0 <= k < i ==> self.lit_has_next(#[trigger] r@[k]) && self.spec_next_of(
                        r@[k].spec_var()) == Some(cube@[k].spec_var()),
        {
            r.push(self.lit_previous(cube.get(i)));
        }
        r
    }

    /// Whether the init predicate admits every state of the cube:
    /// true unless a literal contradicts a defined initial value.
    pub fn cube_subsume_init(&self, x: &Cube) -> (r: bool)
        ensures
            r == self.spec_cube_subsume_init(x@),
    {
        let n = x.len();
        for i in 0..n
            invariant
                n == x@.len(),
                forall|k: int|
                    0 <= k < i ==> {
                        let v = (#[trigger] x@[k]).spec_var();
                        v.id < self.init@.len() && self.init@[v.id as int] is Some
                            ==> self.init@[v.id as int]->Some_0 == x@[k].spec_polarity()
                    },
        {
            let l = x.get(i);
            let v = l.var();
            if (v.id as usize) < self.init.len() {
                if let Some(b) = self.init[v.id as usize] {
                    if b != l.polarity() {
                        return false;
                    }
                }
            }
        }
        true
    }
}

/// Mapping a cube to its prime image and back gives the cube again.
pub proof fn lemma_cube_next_previous(m: Model, c: Seq<Lit>, next_c: Seq<Lit>, back: Seq<Lit>)
    requires
        m.maps_wf(),
        m.cube_has_next(c),
        next_c.len() == c.len(),
        forall|i: int|
            0 <= i < c.len() ==> (#[trigger] next_c[i]) == Model::spec_lit_through(
                c[i],
                m.spec_next_of(c[i].spec_var())->Some_0,
            ),
        back.len() == next_c.len(),
        forall|i: int|
            0 <= i < next_c.len() ==> (#[trigger] back[i]) == Model::spec_lit_through(
                next_c[i],
                m.spec_previous_of(next_c[i].spec_var())->Some_0,
            ),
        forall|i: int| 0 <= i < c.len() ==> (#[trigger] c[i]).code <= 2 * MAX_VAR + 1,
    ensures
        back == c,
{
    assert forall|i: int| 0 <= i < c.len() implies back[i] == c[i] by {
        let v = c[i].spec_var();
        let p = m.spec_next_of(v)->Some_0;
        assert(next_c[i].spec_var() == p);
        assert(m.spec_previous_of(p) == Some(v));
        assert(next_c[i].spec_polarity() == c[i].spec_polarity());
        assert(back[i].spec_var() == v && back[i].spec_polarity() == c[i].spec_polarity());
        let ci = c[i].code;
        let bi = back[i].code;
        assert(ci / 2 == bi / 2 && ci % 2 == bi % 2 ==> ci == bi) by (bit_vector);
    }
    assert(back =~= c);
}


/// The init verdict and the prime-partner conditions look only at
/// which literals a cube holds, not their order: cubes with the same
/// literal sets agree on them.
pub proof fn lemma_cube_props_permutation(m: Model, a: Seq<Lit>, b: Seq<Lit>)
    requires
        forall|l: Lit| a.contains(l) <==> b.contains(l),
    ensures
        m.spec_cube_subsume_init(a) == m.spec_cube_subsume_init(b),
        m.cube_has_next(a) == m.cube_has_next(b),
        m.cube_has_previous(a) == m.cube_has_previous(b),
{
    if m.spec_cube_subsume_init(a) {
        assert forall|i: int| 0 <= i < b.len() implies {
            let v = (#[trigger] b[i]).spec_var();
            v.id < m.init@.len() && m.init@[v.id as int] is Some ==> m.init@[v.id
                as int]->Some_0 == b[i].spec_polarity()
        } by {
            assert(a.contains(b[i]));
            let k = choose|k: int| 0 <= k < a.len() && a[k] == b[i];
        }
    }
    if m.spec_cube_subsume_init(b) {
        assert forall|i: int| 0 <= i < a.len() implies {
            let v = (#[trigger] a[i]).spec_var();
            v.id < m.init@.len() && m.init@[v.id as int] is Some ==> m.init@[v.id
                as int]->Some_0 == a[i].spec_polarity()
        } by {
            assert(b.contains(a[i]));
            let k = choose|k: int| 0 <= k < b.len() && b[k] == a[i];
        }
    }
    if m.cube_has_next(a) {
        assert forall|i: int| 0 <= i < b.len() implies m.lit_has_next(#[trigger] b[i]) by {
            assert(a.contains(b[i]));
            let k = choose|k: int| 0 <= k < a.len() && a[k] == b[i];
        }
    }
    if m.cube_has_next(b) {
        assert forall|i: int| 0 <= i < a.len() implies m.lit_has_next(#[trigger] a[i]) by {
            assert(b.contains(a[i]));
            let k = choose|k: int| 0 <= k < b.len() && b[k] == a[i];
        }
    }
    if m.cube_has_previous(a) {
        assert forall|i: int| 0 <= i < b.len() implies m.lit_has_previous(#[trigger] b[i]) by {
            assert(a.contains(b[i]));
            let k = choose|k: int| 0 <= k < a.len() && a[k] == b[i];
        }
    }
    if m.cube_has_previous(b) {
        assert forall|i: int| 0 <= i < a.len() implies m.lit_has_previous(#[trigger] a[i]) by {
            assert(b.contains(a[i]));
            let k = choose|k: int| 0 <= k < b.len() && b[k] == a[i];
        }
    }
}


/// Prime partners carry over to any cube drawn from a cube that has
/// them.
pub proof fn lemma_cube_has_next_subset(m: Model, a: Seq<Lit>, b: Seq<Lit>)
    requires
        lits_subset(a, b),
        m.cube_has_next(b),
    ensures
        m.cube_has_next(a),
{
    assert forall|i: int| 0 <= i < a.len() implies m.lit_has_next(#[trigger] a[i]) by {
        assert(b.contains(a[i]));
        let k = choose|k: int| 0 <= k < b.len() && b[k] == a[i];
    }
}


impl Model {
    /// Compiles the graph into the canonical transition model.
    ///
    /// Node variables keep their indices; each latch receives a
    /// fresh prime variable. The transition CNF is the Tseitin
    /// encoding of the fanin cone of the latch next-state edges, the
    /// constraint edges and the bad edge, two clauses equating each
    /// prime with its latch's next-state edge, and the constraint
    /// literals as units: an assignment satisfies it exactly when it
    /// respects the cone gates, gives every prime its next-state
    /// value, and makes every constraint true. With no bad edge
    /// listed, the first output edge serves as the bad edge.
    pub fn from_aig(aig: &Aig) -> (m: Model)
        requires
            aig.wf(),
            aig.nodes@.len() + aig.latchs@.len() <= crate::lits::MAX_VAR,
            aig.bads@.len() > 0 || aig.outputs@.len() > 0,
            forall|a: int, b: int|
                0 <= a < b < aig.latchs@.len() ==> (#[trigger] aig.latchs@[a]).input != (
                #[trigger] aig.latchs@[b]).input,
        ensures
            m.maps_wf(),
            m.num_var == aig.nodes@.len() + aig.latchs@.len(),
            m.inputs@.len() == aig.inputs@.len(),
            forall|k: int|
                0 <= k < m.inputs@.len() ==> (#[trigger] m.inputs@[k]).id == aig.inputs@[k],
            m.latchs@.len() == aig.latchs@.len(),
            forall|k: int|
                0 <= k < m.latchs@.len() ==> (#[trigger] m.latchs@[k]).id == (
                #[trigger] aig.latchs@[k]).input,
            forall|k: int|
                0 <= k < m.primes@.len() ==> (#[trigger] m.primes@[k]).id == aig.nodes@.len()
                    + k,
            m.constraints@.len() == aig.constraints@.len(),
            forall|k: int|
                0 <= k < m.constraints@.len() ==> {
                    let e = #[trigger] aig.constraints@[k];
                    let l = #[trigger] m.constraints@[k];
                    l.spec_var().id == e.id && l.spec_polarity() == !e.complement
                },
            ({
                let bad_edge = if aig.bads@.len() == 0 {
                    aig.outputs@[0]
                } else {
                    aig.bads@[0]
                };
                m.bad.spec_var().id == bad_edge.id && m.bad.spec_polarity()
                    == !bad_edge.complement
            }),
            forall|k: int|
                0 <= k < aig.latchs@.len() ==> m.init@[(#[trigger] aig.latchs@[k]).input
                    as int] == aig.latchs@[k].init,
            forall|assign: Seq<bool>|
                assign.len() >= aig.nodes@.len() + aig.latchs@.len() ==> (#[trigger] cnf_sat(
                    assign,
                    m.trans@,
                ) == ({
                    let logic = Seq::new(
                        aig.latchs@.len() as nat,
                        |k: int| aig.latchs@[k].next,
                    ) + aig.constraints@ + seq![
                        if aig.bads@.len() == 0 {
                            aig.outputs@[0]
                        } else {
                            aig.bads@[0]
                        },
                    ];
                    &&& (forall|i: int|
                        0 <= i < aig.nodes@.len() && crate::aig::in_cone(
                            aig.nodes@,
                            logic,
                            i,
                        ) ==> gate_consistent(aig.nodes@, assign, i))
                    &&& (forall|k: int|
                        0 <= k < aig.latchs@.len() ==> assign[aig.nodes@.len() + k]
                            == edge_assign_val(assign, (#[trigger] aig.latchs@[k]).next))
                    &&& (forall|k: int|
                        0 <= k < aig.constraints@.len() ==> edge_assign_val(
                            assign,
                            #[trigger] aig.constraints@[k],
                        ))
                })),
    {
        let nn = aig.nodes.len();
        let nl = aig.latchs.len();
        let num_var = nn + nl;
        let mut inputs: Vec<Var> = Vec::new();
        let ni = aig.inputs.len();
        for k in 0..ni
            invariant
                ni == aig.inputs@.len(),
                inputs@.len() == k,
                forall|q: int|
                    0 <= q < k ==> (#[trigger] inputs@[q]).id == aig.inputs@[q],
                aig.wf(),
                nn == aig.nodes@.len(),
                nn + nl <= MAX_VAR,
        {
            let id = aig.inputs[k];
            proof {
                assert(aig.inputs@[k as int] < aig.nodes@.len());
            }
            inputs.push(Var { id: id as u32 });
        }
        let mut latchs: Vec<Var> = Vec::new();
        let mut primes: Vec<Var> = Vec::new();
        let mut next: Vec<Option<Var>> = Vec::new();
        let mut previous: Vec<Option<Var>> = Vec::new();
        let mut init: Vec<Option<bool>> = Vec::new();
        for v in 0..num_var
            invariant
                next@.len() == v,
                previous@.len() == v,
                init@.len() == v,
                forall|q: int| 0 <= q < v ==> (#[trigger] next@[q]) is None,
                forall|q: int| 0 <= q < v ==> (#[trigger] previous@[q]) is None,
                forall|q: int| 0 <= q < v ==> (#[trigger] init@[q]) is None,
        {
            next.push(None);
            previous.push(None);
            init.push(None);
        }
        for k in 0..nl
            invariant
                nl == aig.latchs@.len(),
                nn == aig.nodes@.len(),
                nn + nl == num_var <= MAX_VAR,
                aig.wf(),
                forall|a: int, b: int|
                    0 <= a < b < nl ==> (#[trigger] aig.latchs@[a]).input != (
                    #[trigger] aig.latchs@[b]).input,
                latchs@.len() == k,
                primes@.len() == k,
                next@.len() == num_var,
                previous@.len() == num_var,
                init@.len() == num_var,
                forall|q: int|
                    0 <= q < k ==> (#[trigger] latchs@[q]).id == aig.latchs@[q].input,
                forall|q: int| 0 <= q < k ==> (#[trigger] primes@[q]).id == nn + q,
                forall|q: int|
                    0 <= q < k ==> next@[(#[trigger] aig.latchs@[q]).input as int] == Some(
                        primes@[q]),
                forall|v: int|
                    0 <= v < num_var && !(exists|q: int|
                        0 <= q < k && (#[trigger] aig.latchs@[q]).input == v) ==> (
                    #[trigger] next@[v]) is None,
                forall|q: int| 0 <= q < k ==> previous@[nn + q] == Some(latchs@[q]),
                forall|v: int|
                    0 <= v < num_var && !(nn <= v < nn + k) ==> (
                    #[trigger] previous@[v]) is None,
                forall|q: int|
                    0 <= q < k ==> init@[(#[trigger] aig.latchs@[q]).input as int]
                        == aig.latchs@[q].init,
                forall|v: int|
                    0 <= v < num_var && !(exists|q: int|
                        0 <= q < k && (#[trigger] aig.latchs@[q]).input == v) ==> (
                    #[trigger] init@[v]) is None,
        {
            let lin = aig.latchs[k].input;
            proof {
                assert(aig.latchs@[k as int].input < aig.nodes@.len());
            }
            let lv = Var { id: lin as u32 };
            let pv = Var { id: (nn + k) as u32 };
            latchs.push(lv);
            primes.push(pv);
            let ghost next_pre = next@;
            let ghost prev_pre = previous@;
            let ghost init_pre = init@;
            next.set(lin, Some(pv));
            previous.set(nn + k, Some(lv));
            init.set(lin, aig.latchs[k].init);
            proof {
                assert forall|v: int|
                    0 <= v < num_var && !(exists|q: int|
                        0 <= q < k + 1 && (#[trigger] aig.latchs@[q]).input == v)
                        implies (#[trigger] next@[v]) is None by {
                    assert(v != lin);
                    assert(next@[v] == next_pre[v]);
                    if next_pre[v] is Some {
                        assert(exists|q: int|
                            0 <= q < k && (#[trigger] aig.latchs@[q]).input == v);
                    }
                }
                assert forall|v: int|
                    0 <= v < num_var && !(exists|q: int|
                        0 <= q < k + 1 && (#[trigger] aig.latchs@[q]).input == v)
                        implies (#[trigger] init@[v]) is None by {
                    assert(v != lin);
                    assert(init@[v] == init_pre[v]);
                    if init_pre[v] is Some {
                        assert(exists|q: int|
                            0 <= q < k && (#[trigger] aig.latchs@[q]).input == v);
                    }
                }
                assert forall|q: int|
                    0 <= q < k + 1 implies next@[(#[trigger] aig.latchs@[q]).input as int]
                    == Some(primes@[q]) by {
                    if q < k {
                        assert(aig.latchs@[q].input != lin);
                        assert(next@[aig.latchs@[q].input as int] == next_pre[aig.latchs@[
                            q].input as int]);
                    }
                }
                assert forall|q: int|
                    0 <= q < k + 1 implies init@[(#[trigger] aig.latchs@[q]).input as int]
                    == aig.latchs@[q].init by {
                    if q < k {
                        assert(aig.latchs@[q].input != lin);
                    }
                }
            }
        }
        let mut constraints: Vec<Lit> = Vec::new();
        let nc = aig.constraints.len();
        for k in 0..nc
            invariant
                nc == aig.constraints@.len(),
                aig.wf(),
                nn == aig.nodes@.len() <= MAX_VAR,
                constraints@.len() == k,
                forall|q: int|
                    0 <= q < k ==> {
                        let e = #[trigger] aig.constraints@[q];
                        let l = #[trigger] constraints@[q];
                        l.spec_var().id == e.id && l.spec_polarity() == !e.complement
                    },
        {
            let e = aig.constraints[k];
            constraints.push(e.to_lit());
        }
        let bad_edge = if aig.bads.len() == 0 {
            aig.outputs[0]
        } else {
            aig.bads[0]
        };
        let bad = bad_edge.to_lit();
        let mut logic: Vec<AigEdge> = Vec::new();
        for k in 0..nl
            invariant
                nl == aig.latchs@.len(),
                aig.wf(),
                logic@.len() == k,
                forall|q: int| 0 <= q < k ==> logic@[q] == aig.latchs@[q].next,
        {
            logic.push(aig.latchs[k].next);
        }
        for k in 0..nc
            invariant
                nc == aig.constraints@.len(),
                nl == aig.latchs@.len(),
                aig.wf(),
                logic@.len() == nl + k,
                forall|q: int| 0 <= q < nl ==> logic@[q] == aig.latchs@[q].next,
                forall|q: int| 0 <= q < k ==> logic@[nl + q] == aig.constraints@[q],
        {
            logic.push(aig.constraints[k]);
        }
        logic.push(bad_edge);
        proof {
            let spec_logic = Seq::new(aig.latchs@.len() as nat, |k: int| aig.latchs@[k].next)
                + aig.constraints@ + seq![bad_edge];
            assert(logic@ =~= spec_logic);
            assert forall|k: int|
                0 <= k < logic@.len() implies (#[trigger] logic@[k]).id
                < aig.nodes@.len() by {
                if k < nl {
                    assert(logic@[k] == aig.latchs@[k].next);
                } else if k < nl + nc {
                    assert(logic@[k] == aig.constraints@[k - nl]);
                } else {
                    assert(logic@[k] == bad_edge);
                }
            }
        }
        let mut trans = aig.get_optimized_cnf(&logic);
        let ghost cone_cnf = trans@;
        let mut k: usize = 0;
        while k < nl
            invariant
                nl == aig.latchs@.len(),
                nn == aig.nodes@.len(),
                nn + nl <= MAX_VAR,
                aig.wf(),
                k <= nl,
                forall|assign: Seq<bool>|
                    assign.len() >= nn + nl ==> (#[trigger] cnf_sat(assign, trans@) == (
                    cnf_sat(assign, cone_cnf) && forall|q: int|
                        0 <= q < k ==> assign[nn + q] == edge_assign_val(
                            assign,
                            (#[trigger] aig.latchs@[q]).next,
                        ))),
            decreases nl - k,
        {
            let e = aig.latchs[k].next;
            let l = e.to_lit();
            let p = Lit::new(Var { id: (nn + k) as u32 }, true);
            let mut c1 = Clause::new();
            c1.push(l);
            c1.push(p.negate());
            let mut c2 = Clause::new();
            c2.push(l.negate());
            c2.push(p);
            let ghost g1 = c1@;
            let ghost g2 = c2@;
            let ghost pre = trans@;
            trans.add_clause(c1);
            let ghost mid1 = trans@;
            trans.add_clause(c2);
            proof {
                assert forall|assign: Seq<bool>|
                    assign.len() >= nn + nl implies (#[trigger] cnf_sat(assign, trans@) == (
                    cnf_sat(assign, cone_cnf) && forall|q: int|
                        0 <= q < k + 1 ==> assign[nn + q] == edge_assign_val(
                            assign,
                            (#[trigger] aig.latchs@[q]).next,
                        ))) by {
                    crate::aig_cnf::lemma_cnf_sat_push_pub(assign, pre, g1);
                    crate::aig_cnf::lemma_cnf_sat_push_pub(assign, mid1, g2);
                    let ev = edge_assign_val(assign, e);
                    let pval = assign[nn + k];
                    assert(crate::aig_cnf::lit_sat(assign, g1[0]) == ev);
                    assert(crate::aig_cnf::lit_sat(assign, g1[1]) == !pval);
                    assert(crate::aig_cnf::clause_sat(assign, g1) == (ev || !pval)) by {
                        if ev || !pval {
                            if ev {
                                assert(crate::aig_cnf::lit_sat(assign, g1[0]));
                            } else {
                                assert(crate::aig_cnf::lit_sat(assign, g1[1]));
                            }
                        }
                    }
                    assert(crate::aig_cnf::lit_sat(assign, g2[0]) == !ev);
                    assert(crate::aig_cnf::lit_sat(assign, g2[1]) == pval);
                    assert(crate::aig_cnf::clause_sat(assign, g2) == (!ev || pval)) by {
                        if !ev || pval {
                            if !ev {
                                assert(crate::aig_cnf::lit_sat(assign, g2[0]));
                            } else {
                                assert(crate::aig_cnf::lit_sat(assign, g2[1]));
                            }
                        }
                    }
                    if cnf_sat(assign, trans@) {
                        assert forall|q: int|
                            0 <= q < k + 1 implies assign[nn + q] == edge_assign_val(
                            assign,
                            (#[trigger] aig.latchs@[q]).next,
                        ) by {}
                    }
                }
            }
            k += 1;
        }
        let ghost with_primes = trans@;
        let mut k2: usize = 0;
        while k2 < nc
            invariant
                nc == aig.constraints@.len(),
                nn == aig.nodes@.len() <= MAX_VAR,
                aig.wf(),
                k2 <= nc,
                forall|assign: Seq<bool>|
                    assign.len() >= nn ==> (#[trigger] cnf_sat(assign, trans@) == (cnf_sat(
                        assign,
                        with_primes,
                    ) && forall|q: int|
                        0 <= q < k2 ==> edge_assign_val(
                            assign,
                            #[trigger] aig.constraints@[q],
                        ))),
            decreases nc - k2,
        {
            let e = aig.constraints[k2];
            let mut c = Clause::new();
            c.push(e.to_lit());
            let ghost g = c@;
            let ghost pre = trans@;
            trans.add_clause(c);
            proof {
                assert forall|assign: Seq<bool>|
                    assign.len() >= nn implies (#[trigger] cnf_sat(assign, trans@) == (
                    cnf_sat(assign, with_primes) && forall|q: int|
                        0 <= q < k2 + 1 ==> edge_assign_val(
                            assign,
                            #[trigger] aig.constraints@[q],
                        ))) by {
                    crate::aig_cnf::lemma_cnf_sat_push_pub(assign, pre, g);
                    assert(crate::aig_cnf::lit_sat(assign, g[0]) == edge_assign_val(
                        assign,
                        e,
                    ));
                    assert(crate::aig_cnf::clause_sat(assign, g) == edge_assign_val(
                        assign,
                        e,
                    )) by {
                        if edge_assign_val(assign, e) {
                            assert(crate::aig_cnf::lit_sat(assign, g[0]));
                        }
                    }
                    if cnf_sat(assign, trans@) {
                        assert forall|q: int|
                            0 <= q < k2 + 1 implies edge_assign_val(
                            assign,
                            #[trigger] aig.constraints@[q],
                        ) by {}
                    }
                }
            }
            k2 += 1;
        }
        let m = Model {
            inputs,
            latchs,
            primes,
            init,
            constraints,
            bad,
            trans,
            num_var,
            next,
            previous,
        };
        proof {
            assert forall|i: int|
                0 <= i < m.next@.len() && (#[trigger] m.next@[i]) is Some implies {
                let p = m.next@[i]->Some_0;
                &&& p.id <= MAX_VAR
                &&& p.id < m.previous@.len()
                &&& m.previous@[p.id as int] == Some(Var { id: i as u32 })
            } by {
                assert(exists|q: int|
                    0 <= q < nl && (#[trigger] aig.latchs@[q]).input == i);
                let q = choose|q: int|
                    0 <= q < nl && (#[trigger] aig.latchs@[q]).input == i;
                assert(m.next@[i] == Some(m.primes@[q]));
                assert(m.latchs@[q].id == i);
            }
            assert forall|i: int|
                0 <= i < m.previous@.len() && (#[trigger] m.previous@[i]) is Some implies {
                let v = m.previous@[i]->Some_0;
                &&& v.id <= MAX_VAR
                &&& v.id < m.next@.len()
                &&& m.next@[v.id as int] == Some(Var { id: i as u32 })
            } by {
                assert(nn <= i < nn + nl);
                let q = i - nn;
                assert(m.previous@[i] == Some(m.latchs@[q]));
            }
            assert(m.maps_wf());
        }
        m
    }
}

/// The init edge of a latch with a defined initial value: its state
/// node, complemented when the value is false, so that the edge
/// asserts the initial value.
pub open spec fn init_edge(l: crate::aig::AigLatch) -> AigEdge {
    AigEdge { id: l.input, complement: !l.init->Some_0 }
}

/// The init edges of a latch list, in latch order: one edge per
/// latch with a defined initial value.
pub open spec fn init_edges_spec(ls: Seq<crate::aig::AigLatch>) -> Seq<AigEdge>
    decreases ls.len(),
{
    if ls.len() == 0 {
        Seq::empty()
    } else {
        let rest = init_edges_spec(ls.drop_last());
        if ls.last().init is Some {
            rest.push(init_edge(ls.last()))
        } else {
            rest
        }
    }
}

/// The initial predicate as a cube of graph edges: one init edge
/// for each latch with a defined initial value.
pub fn latch_init_edges(aig: &Aig) -> (r: Vec<AigEdge>)
    ensures
        r@ == init_edges_spec(aig.latchs@),
{
    let mut r: Vec<AigEdge> = Vec::new();
    let nl = aig.latchs.len();
    for q in 0..nl
        invariant
            nl == aig.latchs@.len(),
            r@ == init_edges_spec(aig.latchs@.subrange(0, q as int)),
    {
        let ghost sub = aig.latchs@.subrange(0, q + 1);
        proof {
            assert(sub.drop_last() =~= aig.latchs@.subrange(0, q as int));
            assert(sub.last() == aig.latchs@[q as int]);
        }
        if let Some(b) = aig.latchs[q].init {
            r.push(AigEdge { id: aig.latchs[q].input, complement: !b });
            proof {
                assert(r@ == init_edges_spec(sub));
            }
        } else {
            proof {
                assert(r@ == init_edges_spec(sub));
            }
        }
    }
    proof {
        assert(aig.latchs@.subrange(0, nl as int) =~= aig.latchs@);
    }
    r
}


impl Aig {
    /// The initial predicate as an edge cube: one init edge per
    /// latch with a defined initial value.
    pub fn latch_init_cube(&self) -> (r: crate::aig_logic::AigCube)
        ensures
            r@ == init_edges_spec(self.latchs@),
    {
        let edges = latch_init_edges(self);
        crate::aig_logic::AigCube { edges }
    }
}


/// An assignment that lies in the initial states: every variable
/// with a defined initial value carries that value.
pub open spec fn assign_matches_init(m: Model, assign: Seq<bool>) -> bool {
    forall|v: int|
        0 <= v < m.init@.len() && (#[trigger] m.init@[v]) is Some ==> v < assign.len()
            && assign[v] == m.init@[v]->Some_0
}

/// The blocking clause of a cube the init predicate does not
/// subsume holds in every initial state: the init-side face of the
/// frame nesting, pairing the engine invariant that no frame cube
/// above 0 subsumes init with the solvers' clause semantics.
pub proof fn lemma_blocking_clause_holds_initially(m: Model, assign: Seq<bool>, c: Seq<Lit>)
    requires
        assign_matches_init(m, assign),
        !m.spec_cube_subsume_init(c),
        forall|i: int|
            0 <= i < c.len() ==> (#[trigger] c[i]).spec_var().id < assign.len(),
    ensures
        clause_sat(assign, seq_negate(c)),
{
    let i = choose|i: int|
        0 <= i < c.len() && !({
            let v = (#[trigger] c[i]).spec_var();
            v.id < m.init@.len() && m.init@[v.id as int] is Some ==> m.init@[v.id
                as int]->Some_0 == c[i].spec_polarity()
        });
    let v = c[i].spec_var();
    crate::lits::lemma_negate_facts(c[i]);
    assert(assign[v.id as int] == m.init@[v.id as int]->Some_0);
    assert(seq_negate(c)[i] == c[i].spec_negate());
    assert(lit_sat(assign, seq_negate(c)[i]));
}

} // verus!
