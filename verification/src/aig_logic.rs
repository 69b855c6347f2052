//! Cubes and clauses over graph edges.
//!
//! The same algebra as the literal containers, but the atoms are
//! edges of the graph; conversion to and from literal form maps each
//! edge to the literal of its node.

use crate::aig::AigEdge;
use crate::cube::{Clause, Cube};
use crate::lits::{Lit, MAX_VAR};
use vstd::prelude::*;

verus! {

/// Every edge of `a` occurs in `b`.
pub open spec fn edges_subset(a: Seq<AigEdge>, b: Seq<AigEdge>) -> bool {
    forall|i: int| 0 <= i < a.len() ==> b.contains(#[trigger] a[i])
}

/// A disjunction of edges.
#[derive(Clone, Debug)]
pub struct AigClause {
    pub edges: Vec<AigEdge>,
}

/// A conjunction of edges.
#[derive(Clone, Debug)]
pub struct AigCube {
    pub edges: Vec<AigEdge>,
}

/// A conjunction of edge clauses.
#[derive(Clone, Debug)]
pub struct AigCnf {
    pub clauses: Vec<AigClause>,
}

/// A disjunction of edge cubes.
#[derive(Clone, Debug)]
pub struct AigDnf {
    pub cubes: Vec<AigCube>,
}

impl View for AigClause {
    type V = Seq<AigEdge>;

    open spec fn view(&self) -> Seq<AigEdge> {
        self.edges@
    }
}

impl View for AigCube {
    type V = Seq<AigEdge>;

    open spec fn view(&self) -> Seq<AigEdge> {
        self.edges@
    }
}

impl AigClause {
    pub fn new() -> (r: AigClause)
        ensures
            r@ =~= Seq::<AigEdge>::empty(),
    {
        AigClause { edges: Vec::new() }
    }

    pub fn push(&mut self, e: AigEdge)
        ensures
            final(self)@ == old(self)@.push(e),
    {
        self.edges.push(e);
    }

    pub fn len(&self) -> (n: usize)
        ensures
            n == self@.len(),
    {
        self.edges.len()
    }

    /// The clause over node literals.
    pub fn to_clause(&self) -> (r: Clause)
        requires
            forall|i: int| 0 <= i < self@.len() ==> (#[trigger] self@[i]).id <= MAX_VAR,
        ensures
            r@.len() == self@.len(),
            forall|i: int|
                0 <= i < self@.len() ==> (#[trigger] r@[i]).spec_var().id == self@[i].id
                    && r@[i].spec_polarity() == !self@[i].complement,
    {
        let mut r = Clause::new();
        let n = self.edges.len();
        for i in 0..n
            invariant
                n == self@.len(),
                forall|q: int| 0 <= q < n ==> (#[trigger] self@[q]).id <= MAX_VAR,
                r@.len() == i,
                forall|q: int|
                    0 <= q < i ==> (#[trigger] r@[q]).spec_var().id == self@[q].id
                        && r@[q].spec_polarity() == !self@[q].complement,
        {
            r.push(self.edges[i].to_lit());
        }
        r
    }
}

impl AigCube {
    pub fn new() -> (r: AigCube)
        ensures
            r@ =~= Seq::<AigEdge>::empty(),
    {
        AigCube { edges: Vec::new() }
    }

    pub fn push(&mut self, e: AigEdge)
        ensures
            final(self)@ == old(self)@.push(e),
    {
        self.edges.push(e);
    }

    pub fn len(&self) -> (n: usize)
        ensures
            n == self@.len(),
    {
        self.edges.len()
    }

    /// Set subsumption: every edge of this cube occurs in the other.
    pub fn subsume(&self, cube: &AigCube) -> (r: bool)
        ensures
            r == edges_subset(self@, cube@),
    {
        let n = self.edges.len();
        for i in 0..n
            invariant
                n == self@.len(),
                forall|k: int| 0 <= k < i ==> cube@.contains(#[trigger] self@[k]),
        {
            let e = self.edges[i];
            let m = cube.edges.len();
            let mut found = false;
            for j in 0..m
                invariant
                    m == cube@.len(),
                    found ==> cube@.contains(e),
                    !found ==> forall|q: int| 0 <= q < j ==> cube@[q] != e,
            {
                if cube.edges[j].node_id() == e.node_id() && cube.edges[j].compl()
                    == e.compl() {
                    found = true;
                    proof {
                        assert(cube@[j as int] == e);
                    }
                }
            }
            if !found {
                proof {
                    assert(self@[i as int] == e);
                }
                return false;
            }
        }
        true
    }

    /// The cube over node literals.
    pub fn to_cube(&self) -> (r: Cube)
        requires
            forall|i: int| 0 <= i < self@.len() ==> (#[trigger] self@[i]).id <= MAX_VAR,
        ensures
            r@.len() == self@.len(),
            forall|i: int|
                0 <= i < self@.len() ==> (#[trigger] r@[i]).spec_var().id == self@[i].id
                    && r@[i].spec_polarity() == !self@[i].complement,
    {
        let mut r = Cube::new();
        let n = self.edges.len();
        for i in 0..n
            invariant
                n == self@.len(),
                forall|q: int| 0 <= q < n ==> (#[trigger] self@[q]).id <= MAX_VAR,
                r@.len() == i,
                forall|q: int|
                    0 <= q < i ==> (#[trigger] r@[q]).spec_var().id == self@[q].id
                        && r@[q].spec_polarity() == !self@[q].complement,
        {
            r.push(self.edges[i].to_lit());
        }
        r
    }

    /// The edge cube of a literal cube.
    pub fn from_cube(cube: &Cube) -> (r: AigCube)
        ensures
            r@.len() == cube@.len(),
            forall|i: int|
                0 <= i < cube@.len() ==> (#[trigger] r@[i]).id == cube@[i].spec_var().id
                    && r@[i].complement == !cube@[i].spec_polarity(),
    {
        let mut r = AigCube::new();
        let n = cube.len();
        for i in 0..n
            invariant
                n == cube@.len(),
                r@.len() == i,
                forall|q: int|
                    0 <= q < i ==> (#[trigger] r@[q]).id == cube@[q].spec_var().id
                        && r@[q].complement == !cube@[q].spec_polarity(),
        {
            r.push(AigEdge::from_lit(cube.get(i)));
        }
        r
    }
}

impl AigCnf {
    pub fn new() -> (r: AigCnf)
        ensures
            r.clauses@.len() == 0,
    {
        AigCnf { clauses: Vec::new() }
    }

    pub fn add_clause(&mut self, clause: AigClause)
        ensures
            final(self).clauses@.len() == old(self).clauses@.len() + 1,
            old(self).clauses@.is_prefix_of(final(self).clauses@),
            final(self).clauses@[old(self).clauses@.len() as int]@ == clause@,
    {
        let ghost c = clause@;
        self.clauses.push(clause);
    }
}

impl AigDnf {
    pub fn new() -> (r: AigDnf)
        ensures
            r.cubes@.len() == 0,
    {
        AigDnf { cubes: Vec::new() }
    }

    pub fn add_cube(&mut self, cube: AigCube)
        ensures
            final(self).cubes@.len() == old(self).cubes@.len() + 1,
            old(self).cubes@.is_prefix_of(final(self).cubes@),
            final(self).cubes@[old(self).cubes@.len() as int]@ == cube@,
    {
        self.cubes.push(cube);
    }

    /// Adds the cube unless a stored cube subsumes it; cubes the new
    /// one subsumes are dropped, as it is at least as strong.
    pub fn add_cube_with_subsume_check(&mut self, cube: AigCube)
        ensures
            (exists|q: int|
                0 <= q < old(self).cubes@.len() && edges_subset(
                    (#[trigger] old(self).cubes@[q])@,
                    cube@,
                )) ==> final(self).cubes@ == old(self).cubes@,
            !(exists|q: int|
                0 <= q < old(self).cubes@.len() && edges_subset(
                    (#[trigger] old(self).cubes@[q])@,
                    cube@,
                )) ==> {
                &&& final(self).cubes@.len() >= 1
                &&& final(self).cubes@[final(self).cubes@.len() - 1]@ == cube@
                &&& (forall|k: int|
                    0 <= k < final(self).cubes@.len() - 1 ==> (exists|q: int|
                        0 <= q < old(self).cubes@.len() && (#[trigger] final(self).cubes@[k])@ == (#[trigger] old(self).cubes@[q])@) && !edges_subset(
                        cube@,
                        final(self).cubes@[k]@,
                    ))
                &&& (forall|q: int|
                    0 <= q < old(self).cubes@.len() && !edges_subset(
                        cube@,
                        (#[trigger] old(self).cubes@[q])@,
                    ) ==> exists|k: int|
                        0 <= k < final(self).cubes@.len() && (#[trigger] final(self).cubes@[k])@ == old(self).cubes@[q]@)
            },
    {
        let n = self.cubes.len();
        for q in 0..n
            invariant
                n == self.cubes@.len(),
                self.cubes == old(self).cubes,
                forall|q2: int|
                    0 <= q2 < q ==> !edges_subset((#[trigger] self.cubes@[q2])@, cube@),
        {
            if self.cubes[q].subsume(&cube) {
                return ;
            }
        }
        let mut kept: Vec<AigCube> = Vec::new();
        for q in 0..n
            invariant
                n == self.cubes@.len(),
                self.cubes == old(self).cubes,
                forall|k: int|
                    0 <= k < kept@.len() ==> (exists|q2: int|
                        0 <= q2 < n && (#[trigger] kept@[k])@ == (
                        #[trigger] self.cubes@[q2])@) && !edges_subset(cube@, kept@[k]@),
                forall|q2: int|
                    0 <= q2 < q && !edges_subset(cube@, (#[trigger] self.cubes@[q2])@)
                        ==> exists|k: int|
                        0 <= k < kept@.len() && (#[trigger] kept@[k])@ == self.cubes@[q2]@,
        {
            if !cube.subsume(&self.cubes[q]) {
                let ghost prev = kept@;
                let mut copy = AigCube::new();
                let m = self.cubes[q].edges.len();
                for j in 0..m
                    invariant
                        q < n == self.cubes@.len(),
                        m == self.cubes@[q as int]@.len(),
                        copy@ =~= self.cubes@[q as int]@.subrange(0, j as int),
                {
                    copy.push(self.cubes[q].edges[j]);
                }
                proof {
                    assert(copy@ =~= self.cubes@[q as int]@);
                }
                kept.push(copy);
                proof {
                    assert(kept@[prev.len() as int]@ == self.cubes@[q as int]@);
                    assert forall|k: int| 0 <= k < kept@.len() implies (exists|q2: int|
                        0 <= q2 < n && (#[trigger] kept@[k])@ == (
                        #[trigger] self.cubes@[q2])@) && !edges_subset(cube@, kept@[k]@) by {
                        if k < prev.len() {
                            assert(kept@[k] == prev[k]);
                        }
                    }
                    assert forall|q2: int|
                        0 <= q2 < q + 1 && !edges_subset(
                            cube@,
                            (#[trigger] self.cubes@[q2])@,
                        ) implies exists|k: int|
                        0 <= k < kept@.len() && (#[trigger] kept@[k])@ == self.cubes@[q2]@ by {
                        if q2 < q {
                            let k = choose|k: int|
                                0 <= k < prev.len() && (#[trigger] prev[k])@
                                    == self.cubes@[q2]@;
                            assert(kept@[k]@ == self.cubes@[q2]@);
                        }
                    }
                }
            }
        }
        let ghost keptpre = kept@;
        kept.push(cube);
        self.cubes = kept;
        proof {
            assert(final(self).cubes@[final(self).cubes@.len() - 1]@ == cube@);
            assert forall|k: int|
                0 <= k < final(self).cubes@.len() - 1 implies (exists|q: int|
                0 <= q < old(self).cubes@.len() && (#[trigger] final(self).cubes@[k])@ == (
                #[trigger] old(self).cubes@[q])@) && !edges_subset(
                cube@,
                final(self).cubes@[k]@,
            ) by {
                assert(final(self).cubes@[k] == keptpre[k]);
            }
            assert forall|q: int|
                0 <= q < old(self).cubes@.len() && !edges_subset(
                    cube@,
                    (#[trigger] old(self).cubes@[q])@,
                ) implies exists|k: int|
                0 <= k < final(self).cubes@.len() && (#[trigger] final(self).cubes@[k])@
                    == old(self).cubes@[q]@ by {
                let k = choose|k: int|
                    0 <= k < keptpre.len() && (#[trigger] keptpre[k])@ == old(
                        self,
                    ).cubes@[q]@;
                assert(final(self).cubes@[k]@ == old(self).cubes@[q]@);
            }
        }
    }
}

} // verus!
