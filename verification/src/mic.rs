//! Decision steps of inductive generalization (MIC).
//!
//! The drop loop tries to remove literals from a blocking cube while
//! it stays blocked; a counterexample-to-generalization pass may
//! strengthen frames in between. The SAT answers arrive as plain
//! values; every decision on them is here and verified. A cube of a
//! single literal can never lose it: the empty candidate is subsumed
//! by the init predicate, so its down check fails before any solver
//! is asked.

use crate::cube::{distinct_vars, lits_subset, seq_negate, strictly_sorted, Clause, Cube};
use crate::engine::{temp_add_rel, Ic3};
use crate::lits::Lit;
use crate::model::Model;
use vstd::prelude::*;

verus! {

/// Removing the sole literal of a one-literal cube leaves the empty
/// cube, which the init predicate subsumes: the down check of the
/// drop loop reports inclusion in init without asking any solver,
/// and the literal is kept.
pub proof fn lemma_singleton_drop_rejected(m: Model, c: Seq<Lit>, i: int)
    requires
        c.len() == 1,
        0 <= i < c.len(),
    ensures
        m.spec_cube_subsume_init(c.remove(i)),
{
    assert(c.remove(i).len() == 0);
}

impl Ic3 {
    /// The candidate of one drop step: the cube with the literal at
    /// `i` removed.
    pub fn mic_drop_candidate(&self, cube: &Cube, i: usize) -> (r: Cube)
        requires
            i < cube@.len(),
            self.cube_ok(cube@),
        ensures
            r@ == cube@.remove(i as int),
            self.cube_ok(r@),
            lits_subset(r@, cube@),
    {
        let n = cube.len();
        let mut r = Cube::new();
        for k in 0..n
            invariant
                n == cube@.len(),
                i < n,
                r@ =~= if k <= i {
                    cube@.subrange(0, k as int)
                } else {
                    cube@.remove(i as int).subrange(0, k - 1)
                },
        {
            if k != i {
                r.push(cube.get(k));
            }
            proof {
                if k < i {
                    assert(r@ =~= cube@.subrange(0, k + 1));
                } else {
                    assert(r@ =~= cube@.remove(i as int).subrange(0, k as int));
                }
            }
        }
        proof {
            assert(r@ =~= cube@.remove(i as int));
            assert forall|q: int| 0 <= q < r@.len() implies cube@.contains(#[trigger] r@[q]) by {
                if q < i {
                    assert(r@[q] == cube@[q]);
                } else {
                    assert(r@[q] == cube@[q + 1]);
                }
            }
            assert forall|a: int, b: int|
                0 <= a < b < r@.len() implies r@[a].spec_var().id != r@[b].spec_var().id by {
                let a2 = if a < i {
                    a
                } else {
                    a + 1
                };
                let b2 = if b < i {
                    b
                } else {
                    b + 1
                };
                assert(r@[a] == cube@[a2] && r@[b] == cube@[b2]);
            }
            crate::model::lemma_cube_has_next_subset(self.model, r@, cube@);
        }
        r
    }

    /// After a successful drop: the cube shrinks to its literals
    /// that survive in the returned core, the scan position moves to
    /// the first kept literal that was not already tried, and the
    /// shrunk cube is offered to the solvers as a temporary clause.
    /// The returned frame and clause direct the back-end additions.
    pub fn handle_down_success(&mut self, frame: usize, cube: &Cube, i: usize, new_cube: &Cube)
        -> (r: (Cube, usize, usize, Clause))
        requires
            old(self).wf(),
            old(self).num_frames() >= 1,
            old(self).cube_ok(cube@),
            i < cube@.len(),
            !new_cube@.contains(cube@[i as int]),
        ensures
            final(self).wf(),
            final(self).model == old(self).model,
            final(self).frames == old(self).frames,
            final(self).obligations == old(self).obligations,
            final(self).push_fail == old(self).push_fail,
            final(self).bad == old(self).bad,
            final(self).lift == old(self).lift,
            ({
                let kept = r.0;
                let new_i = r.1;
                &&& lits_subset(kept@, cube@)
                &&& final(self).cube_ok(kept@)
                &&& (forall|k: int|
                    0 <= k < kept@.len() ==> new_cube@.contains(#[trigger] kept@[k]))
                &&& (forall|k: int|
                    0 <= k < cube@.len() && new_cube@.contains(#[trigger] cube@[k])
                        ==> kept@.contains(cube@[k]))
                &&& !kept@.contains(cube@[i as int])
                &&& new_i <= kept@.len()
                &&& (new_i < kept@.len() ==> !cube@.subrange(0, i as int).contains(
                    kept@[new_i as int],
                ))
                &&& (forall|q: int|
                    0 <= q < new_i ==> cube@.subrange(0, i as int).contains(
                        #[trigger] kept@[q],
                    ))
                &&& (lits_subset(new_cube@, cube@) && new_cube@.len() >= 1 ==> kept@.len()
                    >= 1)
            }),
            r.2 == if frame < old(self).num_frames() - 1 {
                frame as int
            } else {
                old(self).num_frames() - 1
            },
            forall|k: int|
                0 <= k < final(self).num_frames() && !(1 <= k <= r.2)
                    ==> #[trigger] final(self).solvers@[k] == old(self).solvers@[k],
            forall|k: int|
                1 <= k <= r.2 ==> temp_add_rel(
                    old(self).solvers@[k],
                    #[trigger] final(self).solvers@[k],
                    seq_negate(r.3@),
                    r.3@,
                ),
    {
        let n = cube.len();
        let mut kept = Cube::new();
        for k in 0..n
            invariant
                n == cube@.len(),
                i < n,
                distinct_vars(cube@),
                !new_cube@.contains(cube@[i as int]),
                lits_subset(kept@, cube@),
                forall|a: int, b: int| 0 <= a < b < kept@.len() ==> kept@[a] != kept@[b],
                forall|q: int|
                    0 <= q < kept@.len() ==> new_cube@.contains(#[trigger] kept@[q]),
                forall|q: int|
                    0 <= q < k && new_cube@.contains(#[trigger] cube@[q]) ==> kept@.contains(
                        cube@[q]),
                forall|l: Lit|
                    kept@.contains(l) ==> exists|q: int|
                        0 <= q < k && (#[trigger] cube@[q]) == l,
        {
            let ghost prev = kept@;
            if new_cube.contains(cube.get(k)) {
                kept.push(cube.get(k));
                proof {
                    assert(kept@[prev.len() as int] == cube@[k as int]);
                    assert forall|q: int| 0 <= q < kept@.len() implies cube@.contains(
                        #[trigger] kept@[q],
                    ) && new_cube@.contains(kept@[q]) by {
                        if q < prev.len() {
                            assert(kept@[q] == prev[q]);
                        }
                    }
                    assert forall|a: int, b: int|
                        0 <= a < b < kept@.len() implies kept@[a] != kept@[b] by {
                        if b == prev.len() {
                            assert(prev.contains(prev[a]));
                            let qa = choose|qa: int|
                                0 <= qa < k && (#[trigger] cube@[qa]) == prev[a];
                            assert(cube@[qa].spec_var().id != cube@[k
                                as int].spec_var().id);
                        }
                    }
                    assert forall|q: int|
                        0 <= q < k + 1 && new_cube@.contains(#[trigger] cube@[q])
                            implies kept@.contains(cube@[q]) by {
                        if q < k {
                            assert(prev.contains(cube@[q]));
                            let w = choose|w: int|
                                0 <= w < prev.len() && prev[w] == cube@[q];
                            assert(kept@[w] == cube@[q]);
                        }
                    }
                    assert forall|l: Lit| kept@.contains(l) implies exists|q: int|
                        0 <= q < k + 1 && (#[trigger] cube@[q]) == l by {
                        let w = choose|w: int| 0 <= w < kept@.len() && kept@[w] == l;
                        if w < prev.len() {
                            assert(prev.contains(l));
                        } else {
                            assert(cube@[k as int] == l);
                        }
                    }
                }
            }
        }
        proof {
            if kept@.contains(cube@[i as int]) {
                assert(false);
            }
            crate::model::lemma_cube_has_next_subset(self.model, kept@, cube@);
            if lits_subset(new_cube@, cube@) && new_cube@.len() >= 1 {
                assert(cube@.contains(new_cube@[0]));
                let k = choose|k: int| 0 <= k < cube@.len() && cube@[k] == new_cube@[0];
                assert(new_cube@.contains(cube@[k]));
                assert(kept@.contains(cube@[k]));
            }
        }
        let m = kept.len();
        let mut new_i = m;
        let mut found = false;
        let mut q: usize = 0;
        while q < m
            invariant
                m == kept@.len(),
                i < n == cube@.len(),
                q <= m,
                !found ==> new_i == m,
                !found ==> forall|q2: int|
                    0 <= q2 < q ==> cube@.subrange(0, i as int).contains(
                        #[trigger] kept@[q2],
                    ),
                found ==> new_i < m && !cube@.subrange(0, i as int).contains(
                    kept@[new_i as int],
                ),
                found ==> forall|q2: int|
                    0 <= q2 < new_i ==> cube@.subrange(0, i as int).contains(
                        #[trigger] kept@[q2],
                    ),
            decreases m - q,
        {
            if !found {
                let mut in_prefix = false;
                let mut p: usize = 0;
                while p < i
                    invariant
                        p <= i <= n == cube@.len(),
                        q < m == kept@.len(),
                        in_prefix ==> cube@.subrange(0, i as int).contains(kept@[q as int]),
                        !in_prefix ==> forall|pp: int|
                            0 <= pp < p ==> cube@[pp] != kept@[q as int],
                    decreases i - p,
                {
                    if cube.get(p).code == kept.get(q).code {
                        proof {
                            assert(cube@.subrange(0, i as int)[p as int] == kept@[q as int]);
                        }
                        in_prefix = true;
                    }
                    p += 1;
                }
                if !in_prefix {
                    proof {
                        assert forall|pp: int|
                            0 <= pp < i implies cube@.subrange(0, i as int)[pp] != kept@[q
                            as int] by {
                            assert(cube@[pp] != kept@[q as int]);
                        }
                    }
                    new_i = q;
                    found = true;
                }
            }
            q += 1;
        }
        let (eff, clause) = self.add_temporary_cube(frame, &kept);
        (kept, new_i, eff, clause)
    }

    /// The shrink step of a counterexample-to-generalization pass:
    /// the cube keeps the literals the refuting model still assigns;
    /// if a literal already proven necessary would be dropped, the
    /// pass fails instead.
    pub fn ctg_shrink(&self, cube: &Cube, model_cube: &Cube, keep: &Cube) -> (r: Option<
        Cube>)
        requires
            self.cube_ok(cube@),
        ensures
            r is Some ==> {
                let s = r->Some_0;
                &&& lits_subset(s@, cube@)
                &&& self.cube_ok(s@)
                &&& (forall|k: int|
                    0 <= k < s@.len() ==> model_cube@.contains(#[trigger] s@[k]))
                &&& (forall|k: int|
                    0 <= k < cube@.len() && model_cube@.contains(#[trigger] cube@[k])
                        ==> s@.contains(cube@[k]))
                &&& (forall|k: int|
                    0 <= k < cube@.len() && !model_cube@.contains(#[trigger] cube@[k])
                        ==> !keep@.contains(cube@[k]))
            },
            r is None ==> exists|k: int|
                0 <= k < cube@.len() && !model_cube@.contains(#[trigger] cube@[k])
                    && keep@.contains(cube@[k]),
    {
        let n = cube.len();
        let mut s = Cube::new();
        for k in 0..n
            invariant
                n == cube@.len(),
                distinct_vars(cube@),
                lits_subset(s@, cube@),
                forall|a: int, b: int| 0 <= a < b < s@.len() ==> s@[a] != s@[b],
                forall|q: int| 0 <= q < s@.len() ==> model_cube@.contains(#[trigger] s@[q]),
                forall|q: int|
                    0 <= q < k && model_cube@.contains(#[trigger] cube@[q]) ==> s@.contains(
                        cube@[q]),
                forall|l: Lit|
                    s@.contains(l) ==> exists|q: int| 0 <= q < k && (#[trigger] cube@[q]) == l,
                forall|q: int|
                    0 <= q < k && !model_cube@.contains(#[trigger] cube@[q])
                        ==> !keep@.contains(cube@[q]),
        {
            let ghost prev = s@;
            let l = cube.get(k);
            if model_cube.contains(l) {
                s.push(l);
                proof {
                    assert(s@[prev.len() as int] == cube@[k as int]);
                    assert forall|q: int| 0 <= q < s@.len() implies cube@.contains(
                        #[trigger] s@[q],
                    ) && model_cube@.contains(s@[q]) by {
                        if q < prev.len() {
                            assert(s@[q] == prev[q]);
                        }
                    }
                    assert forall|a: int, b: int|
                        0 <= a < b < s@.len() implies s@[a] != s@[b] by {
                        if b == prev.len() {
                            assert(prev.contains(prev[a]));
                            let qa = choose|qa: int|
                                0 <= qa < k && (#[trigger] cube@[qa]) == prev[a];
                            assert(cube@[qa].spec_var().id != cube@[k
                                as int].spec_var().id);
                        }
                    }
                    assert forall|q: int|
                        0 <= q < k + 1 && model_cube@.contains(#[trigger] cube@[q])
                            implies s@.contains(cube@[q]) by {
                        if q < k {
                            assert(prev.contains(cube@[q]));
                            let w = choose|w: int|
                                0 <= w < prev.len() && prev[w] == cube@[q];
                            assert(s@[w] == cube@[q]);
                        }
                    }
                    assert forall|l2: Lit| s@.contains(l2) implies exists|q: int|
                        0 <= q < k + 1 && (#[trigger] cube@[q]) == l2 by {
                        let w = choose|w: int| 0 <= w < s@.len() && s@[w] == l2;
                        if w < prev.len() {
                            assert(prev.contains(l2));
                        } else {
                            assert(cube@[k as int] == l2);
                        }
                    }
                }
            } else if keep.contains(l) {
                return None;
            }
        }
        proof {
            crate::model::lemma_cube_has_next_subset(self.model, s@, cube@);
        }
        Some(s)
    }

    /// Splits a cube against a push-failure counterexample: the
    /// literals the counterexample shares, and those it refutes.
    pub fn partition_by_cex(&self, cube: &Cube, cex: &Cube) -> (r: (Cube, Cube))
        requires
            self.cube_ok(cube@),
        ensures
            forall|l: Lit| r.0@.contains(l) ==> cube@.contains(l) && cex@.contains(l),
            forall|l: Lit| r.1@.contains(l) ==> cube@.contains(l) && !cex@.contains(l),
            forall|k: int|
                0 <= k < cube@.len() ==> if cex@.contains(#[trigger] cube@[k]) {
                    r.0@.contains(cube@[k])
                } else {
                    r.1@.contains(cube@[k])
                },
            self.cube_ok(r.0@),
            self.cube_ok(r.1@),
    {
        let n = cube.len();
        let mut same = Cube::new();
        let mut diff = Cube::new();
        for k in 0..n
            invariant
                n == cube@.len(),
                distinct_vars(cube@),
                forall|l: Lit|
                    same@.contains(l) ==> cube@.contains(l) && cex@.contains(l),
                forall|l: Lit|
                    diff@.contains(l) ==> cube@.contains(l) && !cex@.contains(l),
                forall|q: int|
                    0 <= q < k ==> if cex@.contains(#[trigger] cube@[q]) {
                        same@.contains(cube@[q])
                    } else {
                        diff@.contains(cube@[q])
                    },
                forall|a: int, b: int| 0 <= a < b < same@.len() ==> same@[a] != same@[b],
                forall|a: int, b: int| 0 <= a < b < diff@.len() ==> diff@[a] != diff@[b],
                forall|l: Lit|
                    same@.contains(l) || diff@.contains(l) ==> exists|q: int|
                        0 <= q < k && (#[trigger] cube@[q]) == l,
        {
            let l = cube.get(k);
            let ghost sprev = same@;
            let ghost dprev = diff@;
            if cex.contains(l) {
                same.push(l);
            } else {
                diff.push(l);
            }
            proof {
                assert forall|q: int|
                    0 <= q < k + 1 implies (if cex@.contains(#[trigger] cube@[q]) {
                    same@.contains(cube@[q])
                } else {
                    diff@.contains(cube@[q])
                }) by {
                    if q < k {
                        if cex@.contains(cube@[q]) {
                            assert(sprev.contains(cube@[q]));
                            let w = choose|w: int|
                                0 <= w < sprev.len() && sprev[w] == cube@[q];
                            assert(same@[w] == cube@[q]);
                        } else {
                            assert(dprev.contains(cube@[q]));
                            let w = choose|w: int|
                                0 <= w < dprev.len() && dprev[w] == cube@[q];
                            assert(diff@[w] == cube@[q]);
                        }
                    } else {
                        if cex@.contains(cube@[q]) {
                            assert(same@[sprev.len() as int] == cube@[q]);
                        } else {
                            assert(diff@[dprev.len() as int] == cube@[q]);
                        }
                    }
                }
                assert forall|l2: Lit|
                    same@.contains(l2) || diff@.contains(l2) implies exists|q: int|
                    0 <= q < k + 1 && (#[trigger] cube@[q]) == l2 by {
                    if sprev.contains(l2) || dprev.contains(l2) {
                    } else {
                        assert(l2 == cube@[k as int]);
                    }
                }
                assert forall|a: int, b: int|
                    0 <= a < b < same@.len() implies same@[a] != same@[b] by {
                    if b == sprev.len() {
                        assert(sprev.contains(sprev[a]));
                        let qa = choose|qa: int|
                            0 <= qa < k && (#[trigger] cube@[qa]) == sprev[a];
                        assert(cube@[qa].spec_var().id != cube@[k as int].spec_var().id);
                    }
                }
                assert forall|a: int, b: int|
                    0 <= a < b < diff@.len() implies diff@[a] != diff@[b] by {
                    if b == dprev.len() {
                        assert(dprev.contains(dprev[a]));
                        let qa = choose|qa: int|
                            0 <= qa < k && (#[trigger] cube@[qa]) == dprev[a];
                        assert(cube@[qa].spec_var().id != cube@[k as int].spec_var().id);
                    }
                }
            }
        }
        proof {
            assert forall|l: Lit| same@.contains(l) implies cube@.contains(l) by {}
            crate::cube::lemma_distinct_vars_subset(same@, cube@);
            crate::cube::lemma_distinct_vars_subset(diff@, cube@);
            crate::model::lemma_cube_has_next_subset(self.model, same@, cube@);
            crate::model::lemma_cube_has_next_subset(self.model, diff@, cube@);
        }
        (same, diff)
    }

    /// A parent cube extended by one refuted literal: the next
    /// candidate of the parent-guided shortcut.
    pub fn parent_extend(&self, p: &Cube, d: Lit) -> (r: Cube)
        ensures
            r@ == p@.push(d),
    {
        let mut r = p.duplicate();
        r.push(d);
        r
    }
}

} // verus!
