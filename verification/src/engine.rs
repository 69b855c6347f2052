//! The IC3 engine state and its decision steps.
//!
//! The engine owns the frame stack, one solver state per frame, the
//! proof-obligation queue and the push-failure cache. The SAT back
//! end itself is an external collaborator: the engine prepares every
//! query as plain values (an assumption cube and a temporary clause)
//! and consumes every answer as plain values (core membership flags
//! or model values), so each decision is verified for every possible
//! answer.
//!
//! Two invariants are carried by [`Ic3::wf`] through every step: no
//! cube of a frame above 0 is subsumed by the init predicate, and
//! for every cube of frame `i` each solver at or below `i` holds a
//! clause at least as strong as the cube's blocking clause.

use crate::cube::{
    distinct_vars, lits_subset, seq_negate, sorted_by_code, strictly_sorted, Clause, Cube,
};
use crate::frames::{cube_seq_has, Frames};
use crate::lits::Lit;
use crate::model::Model;
use crate::obligation::{ProofObligation, ProofObligationQueue};
use vstd::prelude::*;

verus! {

/// The engine-side state of one per-frame incremental solver: the
/// clauses it has been fed beyond the transition relation, the
/// temporary (retractable) cubes, and how many activation literals
/// it has spent since its last rebuild.
pub struct Ic3Solver {
    pub num_act: usize,
    pub clauses: Vec<Clause>,
    pub temporary: Vec<Cube>,
}

/// A clause list holds a clause at least as strong as the blocking
/// clause of the cube `c`: one whose cube form subsumes `c`.
pub open spec fn clauses_cover(cls: Seq<Clause>, c: Seq<Lit>) -> bool {
    exists|q: int| 0 <= q < cls.len() && lits_subset(seq_negate((#[trigger] cls[q])@), c)
}

/// The list holds a clause that is exactly the blocking clause of
/// the cube `c`.
pub open spec fn clause_listed(cls: Seq<Clause>, c: Seq<Lit>) -> bool {
    exists|q: int| 0 <= q < cls.len() && (#[trigger] cls[q])@ == seq_negate(c)
}

/// Whether the literal's variable has a defined initial value of
/// the opposite polarity: the literal excludes the initial states.
pub open spec fn lit_violates_init(m: Model, l: Lit) -> bool {
    &&& l.spec_var().id < m.init@.len()
    &&& m.init@[l.spec_var().id as int] is Some
    &&& m.init@[l.spec_var().id as int]->Some_0 != l.spec_polarity()
}

/// The literals of `c` at the positions the flag vector names, with
/// the position `extra` included as well when it is in range.
pub open spec fn flagged_lits(c: Seq<Lit>, flags: Seq<bool>, extra: int) -> Seq<Lit>
    decreases c.len(),
{
    if c.len() == 0 {
        Seq::empty()
    } else {
        let rest = flagged_lits(c.drop_last(), flags.drop_last(), extra);
        if flags.last() || extra == c.len() - 1 {
            rest.push(c.last())
        } else {
            rest
        }
    }
}

/// The position of the first literal at or after `i` that
/// contradicts the init map; the cube's length when none does.
pub open spec fn first_init_violation(m: Model, c: Seq<Lit>, i: int) -> int
    decreases c.len() - i,
{
    if i < 0 || i >= c.len() {
        c.len() as int
    } else if lit_violates_init(m, c[i]) {
        i
    } else {
        first_init_violation(m, c, i + 1)
    }
}

/// The first violation is where the linear scan stops: before it
/// every literal agrees with the init map, at it one does not.
proof fn lemma_first_violation_at(m: Model, c: Seq<Lit>, idx: int, j: int)
    requires
        0 <= j <= idx < c.len(),
        lit_violates_init(m, c[idx]),
        forall|q: int| 0 <= q < idx ==> !lit_violates_init(m, #[trigger] c[q]),
    ensures
        first_init_violation(m, c, j) == idx,
    decreases idx - j,
{
    if j < idx {
        lemma_first_violation_at(m, c, idx, j + 1);
    }
}

/// The views of a clause list, clause by clause.
pub open spec fn clause_views(cls: Seq<Clause>) -> Seq<Seq<Lit>>
    decreases cls.len(),
{
    if cls.len() == 0 {
        Seq::empty()
    } else {
        clause_views(cls.drop_last()).push(cls.last()@)
    }
}

/// The blocking clauses of a cube list, in order.
pub open spec fn cube_negations(cs: Seq<Cube>) -> Seq<Seq<Lit>>
    decreases cs.len(),
{
    if cs.len() == 0 {
        Seq::empty()
    } else {
        cube_negations(cs.drop_last()).push(seq_negate(cs.last()@))
    }
}

/// The blocking clauses of the frames from `start` up to (not
/// including) `end`, frame after frame, each frame's cubes in
/// order.
pub open spec fn frames_negations(fr: Frames, start: int, end: int) -> Seq<Seq<Lit>>
    decreases end - start,
{
    if end <= start {
        Seq::empty()
    } else {
        frames_negations(fr, start, end - 1) + cube_negations(fr.frame(end - 1))
    }
}

/// A longer clause list covers whatever a prefix of it covers.
pub proof fn lemma_cover_extend(cls1: Seq<Clause>, cls2: Seq<Clause>, c: Seq<Lit>)
    requires
        clauses_cover(cls1, c),
        cls1.is_prefix_of(cls2),
    ensures
        clauses_cover(cls2, c),
{
    let q = choose|q: int|
        0 <= q < cls1.len() && lits_subset(seq_negate((#[trigger] cls1[q])@), c);
    assert(cls2[q] == cls1[q]);
}

/// A clause covering a cube covers every cube with more literals.
pub proof fn lemma_cover_weaken(cls: Seq<Clause>, c1: Seq<Lit>, c2: Seq<Lit>)
    requires
        clauses_cover(cls, c1),
        lits_subset(c1, c2),
    ensures
        clauses_cover(cls, c2),
{
    let q = choose|q: int|
        0 <= q < cls.len() && lits_subset(seq_negate((#[trigger] cls[q])@), c1);
    assert forall|i: int|
        0 <= i < seq_negate(cls[q]@).len() implies c2.contains(
        #[trigger] seq_negate(cls[q]@)[i],
    ) by {
        assert(c1.contains(seq_negate(cls[q]@)[i]));
        let k = choose|k: int| 0 <= k < c1.len() && c1[k] == seq_negate(cls[q]@)[i];
    }
}

impl Ic3Solver {
    /// A fresh solver state: only the transition relation is loaded.
    pub fn new() -> (s: Ic3Solver)
        ensures
            s.num_act == 0,
            s.clauses@.len() == 0,
            s.temporary@.len() == 0,
    {
        Ic3Solver { num_act: 0, clauses: Vec::new(), temporary: Vec::new() }
    }
}

/// The engine: model, frames, per-frame solver states, obligation
/// queue, push-failure cache and the canonical bad cube.
pub struct Ic3 {
    pub model: Model,
    pub frames: Frames,
    pub solvers: Vec<Ic3Solver>,
    pub obligations: ProofObligationQueue,
    pub push_fail: Vec<(Cube, usize, Cube)>,
    pub lift: Ic3Solver,
    pub bad: Cube,
}

impl Ic3 {
    /// A cube the engine works on: no variable twice, and every
    /// literal a latch literal with a prime partner.
    pub open spec fn cube_ok(self, c: Seq<Lit>) -> bool {
        &&& distinct_vars(c)
        &&& self.model.cube_has_next(c)
    }

    pub open spec fn num_frames(self) -> int {
        self.frames.num_frames()
    }

    /// The clause list of the solver for frame `k`.
    pub open spec fn solver_clauses(self, k: int) -> Seq<Clause> {
        self.solvers@[k].clauses@
    }

    /// The frame invariants: sorted cubes, and above frame 0 every
    /// cube is a working cube that the init predicate does not
    /// subsume.
    pub open spec fn frames_wf(self) -> bool {
        &&& self.frames.wf()
        &&& forall|i: int, j: int|
            1 <= i < self.num_frames() && 0 <= j < self.frames.frame(i).len() ==> {
                &&& !self.model.spec_cube_subsume_init(
                    (#[trigger] self.frames.frame(i)[j])@,
                )
                &&& self.cube_ok(self.frames.frame(i)[j]@)
            }
    }

    /// The solver invariants: one solver state per frame, and for
    /// every cube of frame `i` each solver from 1 up to `i` (and
    /// solver 0 for frame 0) holds a clause at least as strong as
    /// the cube's blocking clause.
    pub open spec fn solvers_wf(self) -> bool {
        &&& self.solvers@.len() == self.num_frames()
        &&& forall|i: int, j: int, k: int|
            1 <= k <= i < self.num_frames() && 0 <= j < self.frames.frame(i).len()
                ==> clauses_cover(
                #[trigger] self.solver_clauses(k),
                (#[trigger] self.frames.frame(i)[j])@,
            )
        &&& forall|j: int|
            0 <= j < self.frames.frame(0).len() && self.num_frames() > 0 ==> clauses_cover(
                self.solver_clauses(0),
                (#[trigger] self.frames.frame(0)[j])@,
            )
    }

    /// Every queued obligation carries a sorted working cube that
    /// the init predicate does not subsume, at a frame that stands.
    pub open spec fn queue_wf(self) -> bool {
        forall|k: int|
            0 <= k < self.obligations@.len() ==> {
                let po = #[trigger] self.obligations@[k];
                &&& sorted_by_code(po.cube@)
                &&& self.cube_ok(po.cube@)
                &&& !self.model.spec_cube_subsume_init(po.cube@)
            }
    }

    /// The whole engine invariant.
    pub open spec fn wf(self) -> bool {
        &&& self.model.maps_wf()
        &&& self.frames_wf()
        &&& self.solvers_wf()
        &&& self.queue_wf()
    }

    /// The current depth: the index of the top frame.
    pub fn depth(&self) -> (d: usize)
        requires
            self.num_frames() >= 1,
            self.solvers@.len() == self.num_frames(),
        ensures
            d == self.num_frames() - 1,
    {
        self.solvers.len() - 1
    }

    /// A fresh engine around a model and its bad cube, with no frame
    /// yet.
    pub fn new(model: Model, bad: Cube) -> (r: Ic3)
        requires
            model.maps_wf(),
        ensures
            r.wf(),
            r.num_frames() == 0,
            r.model == model,
            r.bad == bad,
            r.obligations@.len() == 0,
            r.push_fail@.len() == 0,
    {
        Ic3 {
            model,
            frames: Frames::new(),
            solvers: Vec::new(),
            obligations: ProofObligationQueue::new(),
            push_fail: Vec::new(),
            lift: Ic3Solver::new(),
            bad,
        }
    }

    /// Opens a new top frame with a fresh solver state; the caller
    /// pairs it with a fresh back-end instance loaded with the
    /// transition relation.
    pub fn new_frame(&mut self)
        requires
            old(self).wf(),
        ensures
            final(self).wf(),
            final(self).num_frames() == old(self).num_frames() + 1,
            forall|i: int|
                0 <= i < old(self).num_frames() ==> final(self).frames.frame(i) == old(self).frames.frame(i),
            final(self).frames.frame(old(self).num_frames()).len() == 0,
            final(self).model == old(self).model,
            final(self).obligations == old(self).obligations,
            final(self).bad == old(self).bad,
            final(self).push_fail == old(self).push_fail,
            final(self).lift == old(self).lift,
            forall|k: int|
                0 <= k < old(self).num_frames() ==> final(self).solvers@[k] == old(self).solvers@[k],
    {
        self.frames.new_frame();
        self.solvers.push(Ic3Solver::new());
        proof {
            assert forall|i: int, j: int, k: int|
                1 <= k <= i < self.num_frames() && 0 <= j < self.frames.frame(i).len()
                    implies clauses_cover(
                #[trigger] self.solver_clauses(k),
                (#[trigger] self.frames.frame(i)[j])@,
            ) by {
                assert(i < old(self).num_frames());
                assert(self.frames.frame(i) == old(self).frames.frame(i));
                assert(self.solver_clauses(k) == old(self).solver_clauses(k));
            }
            assert forall|j: int|
                0 <= j < self.frames.frame(0).len() && self.num_frames() > 0
                    implies clauses_cover(
                self.solver_clauses(0),
                (#[trigger] self.frames.frame(0)[j])@,
            ) by {
                if old(self).num_frames() > 0 {
                    assert(self.frames.frame(0) == old(self).frames.frame(0));
                    assert(self.solver_clauses(0) == old(self).solver_clauses(0));
                } else {
                    assert(self.frames.frame(0).len() == 0);
                }
            }
        }
    }
}


impl Ic3 {
    /// Inserts a blocking cube at `frame`.
    ///
    /// The cube is put in canonical order first. If a frame at or
    /// above `frame` already holds a subsuming cube, nothing changes
    /// and `None` is returned. Otherwise every cube the new one
    /// subsumes is removed from frames 1 up to `frame` (it can only
    /// be pushed forward), the new cube is appended to frame
    /// `frame`, and its blocking clause is recorded in the solver
    /// states from `begin` to `frame`; solvers below `begin` already
    /// hold a clause at least as strong. The caller feeds the
    /// returned clause to the matching back-end instances.
    pub fn add_cube(&mut self, frame: usize, cube: Cube) -> (r: Option<(usize, Clause)>)
        requires
            old(self).wf(),
            frame < old(self).num_frames(),
            frame == 0 ==> old(self).num_frames() == 1,
            old(self).cube_ok(cube@),
            frame >= 1 ==> !old(self).model.spec_cube_subsume_init(cube@),
        ensures
            final(self).wf(),
            final(self).num_frames() == old(self).num_frames(),
            final(self).model == old(self).model,
            final(self).obligations == old(self).obligations,
            final(self).push_fail == old(self).push_fail,
            final(self).bad == old(self).bad,
            final(self).lift == old(self).lift,
            r is None ==> *final(self) == *old(self) && frame >= 1 && old(self).frames.spec_contained_from(frame as int, cube@),
            frame >= 1 && r is Some ==> !old(self).frames.spec_contained_from(
                frame as int,
                cube@,
            ),
            r is Some ==> {
                let begin = r->Some_0.0;
                let clause = r->Some_0.1;
                let fr = final(self).frames.frame(frame as int);
                let added = fr[fr.len() - 1];
                &&& fr.len() >= 1
                &&& (forall|l: Lit| added@.contains(l) <==> cube@.contains(l))
                &&& clause@ == seq_negate(added@)
                &&& (frame >= 1 ==> strictly_sorted(added@))
                &&& (forall|i: int|
                    0 <= i < final(self).num_frames() && !(1 <= i <= frame) && i != frame
                        ==> final(self).frames.frame(i) == old(self).frames.frame(i))
                &&& (frame == 0 ==> fr == old(self).frames.frame(0).push(added))
                &&& (forall|i: int, j: int|
                    1 <= i <= frame && i < final(self).num_frames() && 0 <= j < final(self).frames.frame(i).len() && !(i == frame && j == final(self).frames.frame(i).len() - 1) ==> cube_seq_has(
                        old(self).frames.frame(i),
                        (#[trigger] final(self).frames.frame(i)[j])@,
                    ) && !lits_subset(cube@, final(self).frames.frame(i)[j]@))
                &&& (forall|i: int, j: int|
                    1 <= i <= frame && i < old(self).num_frames() && 0 <= j < old(self).frames.frame(i).len() && !lits_subset(
                        cube@,
                        (#[trigger] old(self).frames.frame(i)[j])@,
                    ) ==> cube_seq_has(
                        final(self).frames.frame(i),
                        old(self).frames.frame(i)[j]@,
                    ))
                &&& (forall|i: int|
                    0 <= i < final(self).num_frames() && i != frame && old(self).frames.frame(i).len() == 0 ==> final(self).frames.frame(i).len() == 0)
                &&& begin <= frame + 1
                &&& (frame == 0 ==> begin == 0)
                &&& (frame >= 1 ==> 1 <= begin)
                &&& (forall|k: int|
                    0 <= k < final(self).num_frames() && !(begin <= k <= frame)
                        ==> #[trigger] final(self).solvers@[k] == old(self).solvers@[k])
                &&& (forall|k: int|
                    begin <= k <= frame && k < final(self).num_frames() ==> {
                        let cls = (#[trigger] final(self).solvers@[k]).clauses@;
                        &&& cls.len() == old(self).solvers@[k].clauses@.len() + 1
                        &&& old(self).solvers@[k].clauses@.is_prefix_of(cls)
                        &&& cls[cls.len() - 1]@ == clause@
                        &&& final(self).solvers@[k].num_act == old(self).solvers@[k].num_act
                        &&& final(self).solvers@[k].temporary == old(self).solvers@[k].temporary
                    })
            },
    {
        let ghost oldself = *old(self);
        if frame == 0 {
            let clause = cube.negate();
            proof {
                crate::cube::lemma_seq_negate_involutive(cube@);
            }
            let ghost cv = cube@;
            self.frames.push_cube(0, cube);
            self.solvers[0].clauses.push(clause.duplicate());
            proof {
                let fr = self.frames.frame(0);
                assert(fr[fr.len() - 1]@ == cv);
                assert(oldself.solver_clauses(0).is_prefix_of(self.solver_clauses(0)));
                assert(self.solver_clauses(0)[self.solver_clauses(0).len() - 1]@ == clause@);
                assert forall|j: int|
                    0 <= j < self.frames.frame(0).len() && self.num_frames() > 0
                        implies clauses_cover(
                    self.solver_clauses(0),
                    (#[trigger] self.frames.frame(0)[j])@,
                ) by {
                    if j < oldself.frames.frame(0).len() {
                        assert(self.frames.frame(0)[j] == oldself.frames.frame(0)[j]);
                        lemma_cover_extend(
                            oldself.solver_clauses(0),
                            self.solver_clauses(0),
                            self.frames.frame(0)[j]@,
                        );
                        assert(oldself.solver_clauses(0).is_prefix_of(self.solver_clauses(0)));
                    } else {
                        let q = self.solver_clauses(0).len() - 1;
                        assert(self.solver_clauses(0)[q]@ == clause@);
                        assert(lits_subset(seq_negate(clause@), cv));
                    }
                }
                assert forall|i: int, j: int, k: int|
                    1 <= k <= i < self.num_frames() && 0 <= j < self.frames.frame(i).len()
                        implies clauses_cover(
                    #[trigger] self.solver_clauses(k),
                    (#[trigger] self.frames.frame(i)[j])@,
                ) by {
                    assert(false);
                }
            }
            return Some((0, clause));
        }
        let nfu = self.frames.len();
        assert(frame < nfu);
        let mut cube = cube;
        let ghost orig = cube@;
        cube.sort_by_var();
        proof {
            crate::cube::lemma_distinct_vars_permutation(orig, cube@);
            crate::cube::lemma_strictly_sorted_distinct(cube@);
            crate::model::lemma_cube_props_permutation(self.model, orig, cube@);
            assert forall|x: Seq<Lit>| lits_subset(x, cube@) == lits_subset(x, orig) by {
                if lits_subset(x, cube@) {
                    assert forall|i: int| 0 <= i < x.len() implies orig.contains(
                        #[trigger] x[i],
                    ) by {
                        assert(cube@.contains(x[i]));
                    }
                }
                if lits_subset(x, orig) {
                    assert forall|i: int| 0 <= i < x.len() implies cube@.contains(
                        #[trigger] x[i],
                    ) by {
                        assert(orig.contains(x[i]));
                    }
                }
            }
            assert forall|y: Seq<Lit>| lits_subset(cube@, y) == lits_subset(orig, y) by {
                if lits_subset(cube@, y) {
                    assert forall|i: int| 0 <= i < orig.len() implies y.contains(
                        #[trigger] orig[i],
                    ) by {
                        assert(cube@.contains(orig[i]));
                        let k = choose|k: int| 0 <= k < cube@.len() && cube@[k] == orig[i];
                    }
                }
                if lits_subset(orig, y) {
                    assert forall|i: int| 0 <= i < cube@.len() implies y.contains(
                        #[trigger] cube@[i],
                    ) by {
                        assert(orig.contains(cube@[i]));
                        let k = choose|k: int| 0 <= k < orig.len() && orig[k] == cube@[i];
                    }
                }
            }
        }
        let ghost sc = cube@;
        if self.frames.trivial_contained(frame, &cube) {
            return None;
        }
        let mut begin: usize = 1;
        let ghost mut bw: Seq<Lit> = Seq::empty();
        let end = frame + 1;
        for i in 1..end
            invariant
                1 <= i <= end,
                end == frame + 1,
                1 <= frame < self.num_frames(),
                self.model == oldself.model,
                self.obligations == oldself.obligations,
                self.push_fail == oldself.push_fail,
                self.bad == oldself.bad,
                self.solvers == oldself.solvers,
                self.lift == oldself.lift,
                self.num_frames() == oldself.num_frames(),
                self.frames.wf(),
                strictly_sorted(sc),
                cube@ == sc,
                forall|x: Seq<Lit>| lits_subset(x, sc) == lits_subset(x, orig),
                forall|y: Seq<Lit>| lits_subset(sc, y) == lits_subset(orig, y),
                forall|ii: int|
                    0 <= ii < self.num_frames() && !(1 <= ii < i)
                        ==> #[trigger] self.frames.frame(ii) == oldself.frames.frame(ii),
                forall|ii: int, j: int|
                    1 <= ii < i && 0 <= j < self.frames.frame(ii).len() ==> cube_seq_has(
                        oldself.frames.frame(ii),
                        (#[trigger] self.frames.frame(ii)[j])@,
                    ) && !lits_subset(sc, self.frames.frame(ii)[j]@),
                forall|ii: int, j: int|
                    1 <= ii < i && 0 <= j < oldself.frames.frame(ii).len() && !lits_subset(
                        sc,
                        (#[trigger] oldself.frames.frame(ii)[j])@,
                    ) ==> cube_seq_has(
                        self.frames.frame(ii),
                        oldself.frames.frame(ii)[j]@,
                    ),
                1 <= begin <= i,
                begin > 1 ==> cube_seq_has(oldself.frames.frame(begin - 1), bw)
                    && lits_subset(bw, sc),
        {
            let had = self.frames.prune_subsumed(i, &cube);
            if had {
                begin = i + 1;
                proof {
                    let j = choose|j: int|
                        0 <= j < oldself.frames.frame(i as int).len() && lits_subset(
                            (#[trigger] oldself.frames.frame(i as int)[j])@,
                            sc,
                        );
                    bw = oldself.frames.frame(i as int)[j]@;
                }
            }
        }
        let clause = cube.negate();
        proof {
            crate::cube::lemma_seq_negate_involutive(cube@);
        }
        let ghost pruned = *self;
        self.frames.push_cube(frame, cube);
        let ghost mid = *self;
        let mut k = begin;
        while k < end
            invariant
                1 <= begin <= k <= end == frame + 1,
                frame < mid.num_frames(),
                self.model == mid.model,
                self.obligations == mid.obligations,
                self.push_fail == mid.push_fail,
                self.bad == mid.bad,
                self.frames == mid.frames,
                self.lift == mid.lift,
                self.solvers@.len() == mid.solvers@.len() == mid.num_frames(),
                forall|kk: int|
                    0 <= kk < mid.num_frames() && !(begin <= kk < k)
                        ==> #[trigger] self.solvers@[kk] == mid.solvers@[kk],
                forall|kk: int|
                    begin <= kk < k ==> {
                        let cls = (#[trigger] self.solvers@[kk]).clauses@;
                        &&& cls.len() == mid.solvers@[kk].clauses@.len() + 1
                        &&& mid.solvers@[kk].clauses@.is_prefix_of(cls)
                        &&& cls[cls.len() - 1]@ == clause@
                        &&& self.solvers@[kk].num_act == mid.solvers@[kk].num_act
                        &&& self.solvers@[kk].temporary == mid.solvers@[kk].temporary
                    },
            decreases end - k,
        {
            self.solvers[k].clauses.push(clause.duplicate());
            k += 1;
        }
        proof {
            let nf = self.num_frames();
            let fr = self.frames.frame(frame as int);
            assert(fr == mid.frames.frame(frame as int));
            assert(fr[fr.len() - 1]@ == sc);
            // frame invariants
            assert forall|i: int, j: int|
                1 <= i < nf && 0 <= j < self.frames.frame(i).len() implies {
                &&& !self.model.spec_cube_subsume_init((#[trigger] self.frames.frame(i)[j])@)
                &&& self.cube_ok(self.frames.frame(i)[j]@)
            } by {
                let v = self.frames.frame(i)[j]@;
                if i == frame && j == fr.len() - 1 {
                    assert(v == sc);
                } else if 1 <= i <= frame {
                    assert(cube_seq_has(oldself.frames.frame(i), v));
                    let jj = choose|jj: int|
                        0 <= jj < oldself.frames.frame(i).len() && (
                        #[trigger] oldself.frames.frame(i)[jj])@ == v;
                } else {
                    assert(self.frames.frame(i) == oldself.frames.frame(i));
                }
            }
            // solver coverage
            assert forall|i: int, j: int, k2: int|
                1 <= k2 <= i < nf && 0 <= j < self.frames.frame(i).len()
                    implies clauses_cover(
                #[trigger] self.solver_clauses(k2),
                (#[trigger] self.frames.frame(i)[j])@,
            ) by {
                let v = self.frames.frame(i)[j]@;
                assert(oldself.solver_clauses(k2).is_prefix_of(self.solver_clauses(k2)));
                if i == frame && j == fr.len() - 1 {
                    if begin <= k2 <= frame {
                        let q = self.solver_clauses(k2).len() - 1;
                        assert(self.solver_clauses(k2)[q]@ == clause@);
                        assert(lits_subset(seq_negate(clause@), v));
                    } else {
                        assert(k2 < begin);
                        assert(begin > 1);
                        assert(cube_seq_has(oldself.frames.frame(begin - 1), bw));
                        let jj = choose|jj: int|
                            0 <= jj < oldself.frames.frame(begin - 1).len() && (
                            #[trigger] oldself.frames.frame(begin - 1)[jj])@ == bw;
                        assert(clauses_cover(oldself.solver_clauses(k2), bw));
                        lemma_cover_weaken(oldself.solver_clauses(k2), bw, sc);
                        lemma_cover_extend(
                            oldself.solver_clauses(k2),
                            self.solver_clauses(k2),
                            v,
                        );
                    }
                } else {
                    let ov = if 1 <= i <= frame {
                        let jj = choose|jj: int|
                            0 <= jj < oldself.frames.frame(i).len() && (
                            #[trigger] oldself.frames.frame(i)[jj])@ == v;
                        jj
                    } else {
                        j
                    };
                    assert(oldself.frames.frame(i)[ov]@ == v);
                    assert(clauses_cover(oldself.solver_clauses(k2), v));
                    lemma_cover_extend(oldself.solver_clauses(k2), self.solver_clauses(k2), v);
                }
            }
            assert forall|j: int|
                0 <= j < self.frames.frame(0).len() && nf > 0 implies clauses_cover(
                self.solver_clauses(0),
                (#[trigger] self.frames.frame(0)[j])@,
            ) by {
                assert(self.frames.frame(0) == oldself.frames.frame(0));
                assert(clauses_cover(oldself.solver_clauses(0), self.frames.frame(0)[j]@));
                assert(oldself.solver_clauses(0).is_prefix_of(self.solver_clauses(0)));
                lemma_cover_extend(
                    oldself.solver_clauses(0),
                    self.solver_clauses(0),
                    self.frames.frame(0)[j]@,
                );
            }
            assert forall|i: int, j: int|
                1 <= i <= frame && i < oldself.num_frames() && 0 <= j
                    < oldself.frames.frame(i).len() && !lits_subset(
                    orig,
                    (#[trigger] oldself.frames.frame(i)[j])@,
                ) implies cube_seq_has(
                self.frames.frame(i),
                oldself.frames.frame(i)[j]@,
            ) by {
                let v = oldself.frames.frame(i)[j]@;
                assert(!lits_subset(sc, v));
                assert(cube_seq_has(pruned.frames.frame(i), v));
                let w = choose|w: int|
                    0 <= w < pruned.frames.frame(i).len() && (
                    #[trigger] pruned.frames.frame(i)[w])@ == v;
                assert(self.frames.frame(i)[w]@ == v);
            }
            assert forall|i: int|
                0 <= i < nf && i != frame && oldself.frames.frame(i).len() == 0
                    implies self.frames.frame(i).len() == 0 by {
                if 1 <= i <= frame {
                    assert(self.frames.frame(i) == pruned.frames.frame(i));
                    if self.frames.frame(i).len() > 0 {
                        assert(cube_seq_has(oldself.frames.frame(i), pruned.frames.frame(i)[0]@));
                        let w = choose|w: int|
                            0 <= w < oldself.frames.frame(i).len() && (
                            #[trigger] oldself.frames.frame(i)[w])@ == pruned.frames.frame(
                                i,
                            )[0]@;
                        assert(false);
                    }
                } else {
                    assert(self.frames.frame(i) == oldself.frames.frame(i));
                }
            }
            assert(final(self).wf());
        }
        Some((begin, clause))
    }
}


impl Ic3 {
    /// Prepares a blocked-at-`frame` check: charges one activation
    /// to the solver below `frame`, hands back whether that solver is
    /// due for a rebuild, the next-state assumption cube, and the
    /// clause denying the cube, to be guarded by a fresh activation
    /// literal on the back end.
    pub fn blocked_prepare(&mut self, frame: usize, cube: &Cube) -> (r: (bool, Cube, Clause))
        requires
            old(self).wf(),
            1 <= frame < old(self).num_frames(),
            old(self).cube_ok(cube@),
        ensures
            final(self).wf(),
            final(self).model == old(self).model,
            final(self).frames == old(self).frames,
            final(self).obligations == old(self).obligations,
            final(self).push_fail == old(self).push_fail,
            final(self).bad == old(self).bad,
            final(self).lift == old(self).lift,
            final(self).num_frames() == old(self).num_frames(),
            forall|k: int|
                0 <= k < old(self).num_frames() && k != frame - 1
                    ==> #[trigger] final(self).solvers@[k] == old(self).solvers@[k],
            ({
                let sm = final(self).solvers@[frame - 1];
                let om = old(self).solvers@[frame - 1];
                &&& sm.clauses == om.clauses
                &&& sm.temporary == om.temporary
                &&& om.num_act < usize::MAX ==> sm.num_act == om.num_act + 1
            }),
            r.0 == (final(self).solvers@[frame - 1].num_act > 1000),
            r.1@.len() == cube@.len(),
            forall|i: int|
                0 <= i < cube@.len() ==> (#[trigger] r.1@[i]) == Model::spec_lit_through(
                    cube@[i],
                    final(self).model.spec_next_of(cube@[i].spec_var())->Some_0,
                ),
            final(self).model.cube_has_previous(r.1@),
            r.2@ == seq_negate(cube@),
    {
        let idx = frame - 1;
        let na = self.solvers[idx].num_act;
        if na < usize::MAX {
            self.solvers[idx].num_act = na + 1;
        }
        let needs_reset = self.solvers[idx].num_act > 1000;
        let assumption = self.model.cube_next(cube);
        let tmp_clause = cube.negate();
        proof {
            assert(final(self).solver_clauses(frame - 1) == old(self).solver_clauses(
                frame - 1,
            ));
            assert forall|i: int, j: int, k: int|
                1 <= k <= i < self.num_frames() && 0 <= j < self.frames.frame(i).len()
                    implies clauses_cover(
                #[trigger] self.solver_clauses(k),
                (#[trigger] self.frames.frame(i)[j])@,
            ) by {
                assert(self.solver_clauses(k) == old(self).solver_clauses(k));
                assert(clauses_cover(
                    old(self).solver_clauses(k),
                    self.frames.frame(i)[j]@,
                ));
            }
            assert forall|j: int|
                0 <= j < self.frames.frame(0).len() && self.num_frames() > 0
                    implies clauses_cover(
                self.solver_clauses(0),
                (#[trigger] self.frames.frame(0)[j])@,
            ) by {
                assert(self.solver_clauses(0) == old(self).solver_clauses(0));
            }
        }
        (needs_reset, assumption, tmp_clause)
    }

    /// Rebuilds the state of the solver for frame `k` after too many
    /// activation literals: its clause list becomes exactly the
    /// temporaries' blocking clauses followed by those of the frames
    /// it answers for (frame 0 alone for solver 0, every frame from
    /// `k` up otherwise), in that order. The caller rebuilds the
    /// matching back-end instance from the returned clauses on top
    /// of the transition relation.
    pub fn solver_reset(&mut self, k: usize) -> (r: Vec<Clause>)
        requires
            old(self).wf(),
            k < old(self).num_frames(),
        ensures
            final(self).wf(),
            final(self).model == old(self).model,
            final(self).frames == old(self).frames,
            final(self).obligations == old(self).obligations,
            final(self).push_fail == old(self).push_fail,
            final(self).bad == old(self).bad,
            final(self).lift == old(self).lift,
            final(self).num_frames() == old(self).num_frames(),
            forall|kk: int|
                0 <= kk < old(self).num_frames() && kk != k ==> #[trigger] final(self).solvers@[kk] == old(self).solvers@[kk],
            final(self).solvers@[k as int].num_act == 0,
            final(self).solvers@[k as int].temporary == old(self).solvers@[k as int].temporary,
            r@.len() == final(self).solvers@[k as int].clauses@.len(),
            forall|q: int|
                0 <= q < r@.len() ==> (#[trigger] r@[q])@ == final(self).solvers@[k
                    as int].clauses@[q]@,
            clause_views(final(self).solvers@[k as int].clauses@) == cube_negations(
                old(self).solvers@[k as int].temporary@,
            ) + frames_negations(
                old(self).frames,
                if k == 0 {
                    0int
                } else {
                    k as int
                },
                if k == 0 {
                    1int
                } else {
                    old(self).num_frames()
                },
            ),
    {
        let mut cls: Vec<Clause> = Vec::new();
        let mut out: Vec<Clause> = Vec::new();
        let nt = self.solvers[k].temporary.len();
        for t in 0..nt
            invariant
                nt == self.solvers@[k as int].temporary@.len(),
                k < self.num_frames(),
                self.wf(),
                cls@.len() == out@.len(),
                forall|q: int| 0 <= q < out@.len() ==> (#[trigger] out@[q])@ == cls@[q]@,
                clause_views(cls@) == cube_negations(
                    self.solvers@[k as int].temporary@.subrange(0, t as int),
                ),
        {
            let ghost tsub = self.solvers@[k as int].temporary@.subrange(0, t + 1);
            proof {
                assert(tsub.drop_last() =~= self.solvers@[k as int].temporary@.subrange(
                    0,
                    t as int,
                ));
                assert(tsub.last() == self.solvers@[k as int].temporary@[t as int]);
            }
            let ghost clspre = cls@;
            let c = self.solvers[k].temporary[t].negate();
            out.push(c.duplicate());
            cls.push(c);
            proof {
                assert(cls@.drop_last() =~= clspre);
                assert(clause_views(cls@) == cube_negations(tsub));
            }
        }
        proof {
            assert(self.solvers@[k as int].temporary@.subrange(0, nt as int)
                =~= self.solvers@[k as int].temporary@);
        }
        let ghost neg_temps = clause_views(cls@);
        let start = if k == 0 {
            0
        } else {
            k
        };
        let stop = if k == 0 {
            1
        } else {
            self.frames.len()
        };
        let mut i = start;
        proof {
            assert(clause_views(cls@) =~= neg_temps + frames_negations(
                self.frames,
                start as int,
                start as int,
            ));
        }
        while i < stop
            invariant
                k < self.num_frames(),
                stop <= self.num_frames(),
                start <= i <= stop,
                self.wf(),
                cls@.len() == out@.len(),
                forall|q: int| 0 <= q < out@.len() ==> (#[trigger] out@[q])@ == cls@[q]@,
                forall|ii: int, j: int|
                    start <= ii < i && 0 <= j < self.frames.frame(ii).len() ==> clauses_cover(
                        cls@,
                        (#[trigger] self.frames.frame(ii)[j])@,
                    ),
                clause_views(cls@) == neg_temps + frames_negations(
                    self.frames,
                    start as int,
                    i as int,
                ),
            decreases stop - i,
        {
            let m = self.frames.frame_len(i);
            for j in 0..m
                invariant
                    k < self.num_frames(),
                    i < stop <= self.num_frames(),
                    m == self.frames.frame(i as int).len(),
                    self.wf(),
                    cls@.len() == out@.len(),
                    forall|q: int| 0 <= q < out@.len() ==> (#[trigger] out@[q])@ == cls@[q]@,
                    forall|ii: int, jj: int|
                        start <= ii < i && 0 <= jj < self.frames.frame(ii).len()
                            ==> clauses_cover(
                            cls@,
                            (#[trigger] self.frames.frame(ii)[jj])@,
                        ),
                    forall|jj: int|
                        0 <= jj < j ==> clauses_cover(
                            cls@,
                            (#[trigger] self.frames.frame(i as int)[jj])@,
                        ),
                    start <= i,
                    clause_views(cls@) == neg_temps + frames_negations(
                        self.frames,
                        start as int,
                        i as int,
                    ) + cube_negations(self.frames.frame(i as int).subrange(0, j as int)),
            {
                let ghost fsub = self.frames.frame(i as int).subrange(0, j + 1);
                proof {
                    assert(fsub.drop_last() =~= self.frames.frame(i as int).subrange(
                        0,
                        j as int,
                    ));
                    assert(fsub.last() == self.frames.frame(i as int)[j as int]);
                }
                let ghost prev = cls@;
                let c = self.frames.frame_cube(i, j).negate();
                proof {
                    crate::cube::lemma_seq_negate_involutive(
                        self.frames.frame(i as int)[j as int]@,
                    );
                }
                out.push(c.duplicate());
                cls.push(c);
                proof {
                    assert(cls@[prev.len() as int]@ == seq_negate(
                        self.frames.frame(i as int)[j as int]@,
                    ));
                    assert(lits_subset(
                        seq_negate(cls@[prev.len() as int]@),
                        self.frames.frame(i as int)[j as int]@,
                    ));
                    assert(clauses_cover(cls@, self.frames.frame(i as int)[j as int]@));
                    assert forall|ii: int, jj: int|
                        start <= ii < i && 0 <= jj < self.frames.frame(ii).len()
                            implies clauses_cover(
                        cls@,
                        (#[trigger] self.frames.frame(ii)[jj])@,
                    ) by {
                        lemma_cover_extend(prev, cls@, self.frames.frame(ii)[jj]@);
                    }
                    assert forall|jj: int|
                        0 <= jj < j + 1 implies clauses_cover(
                        cls@,
                        (#[trigger] self.frames.frame(i as int)[jj])@,
                    ) by {
                        if jj < j {
                            lemma_cover_extend(prev, cls@, self.frames.frame(i as int)[jj]@);
                        }
                    }
                    assert(cls@.drop_last() =~= prev);
                    assert(cube_negations(fsub) == cube_negations(
                        self.frames.frame(i as int).subrange(0, j as int),
                    ).push(seq_negate(self.frames.frame(i as int)[j as int]@)));
                    assert(clause_views(cls@) =~= neg_temps + frames_negations(
                        self.frames,
                        start as int,
                        i as int,
                    ) + cube_negations(fsub));
                }
            }
            proof {
                assert(self.frames.frame(i as int).subrange(0, m as int) =~= self.frames.frame(
                    i as int,
                ));
                assert(frames_negations(self.frames, start as int, i + 1)
                    == frames_negations(self.frames, start as int, i as int)
                    + cube_negations(self.frames.frame(i as int)));
                assert(clause_views(cls@) =~= neg_temps + frames_negations(
                    self.frames,
                    start as int,
                    i + 1,
                ));
            }
            i += 1;
        }
        let ghost oldself = *old(self);
        self.solvers[k].num_act = 0;
        self.solvers[k].clauses = cls;
        proof {
            assert forall|i2: int, j2: int, k2: int|
                1 <= k2 <= i2 < self.num_frames() && 0 <= j2 < self.frames.frame(i2).len()
                    implies clauses_cover(
                #[trigger] self.solver_clauses(k2),
                (#[trigger] self.frames.frame(i2)[j2])@,
            ) by {
                if k2 == k {
                    assert(k >= 1);
                    assert(start == k && stop == self.num_frames());
                    assert(clauses_cover(self.solver_clauses(k2), self.frames.frame(i2)[j2]@));
                } else {
                    assert(self.solver_clauses(k2) == oldself.solver_clauses(k2));
                    assert(clauses_cover(
                        oldself.solver_clauses(k2),
                        self.frames.frame(i2)[j2]@,
                    ));
                }
            }
            assert forall|j2: int|
                0 <= j2 < self.frames.frame(0).len() && self.num_frames() > 0
                    implies clauses_cover(
                self.solver_clauses(0),
                (#[trigger] self.frames.frame(0)[j2])@,
            ) by {
                if k == 0 {
                    assert(clauses_cover(self.solver_clauses(0), self.frames.frame(0)[j2]@));
                } else {
                    assert(self.solver_clauses(0) == oldself.solver_clauses(0));
                }
            }
        }
        out
    }
}


impl Ic3 {
    /// Extracts the conflict cube after a successful blocked check:
    /// exactly the literals of the cube whose next-state assumptions
    /// the solver's core names. If that subset no longer contradicts
    /// the init predicate, the first contradicting literal of the
    /// cube (by linear scan) is put back, so that the result never
    /// subsumes init and generalization stays reproducible.
    pub fn blocked_conflict(&self, cube: &Cube, core: &Vec<bool>) -> (r: Cube)
        requires
            self.model.maps_wf(),
            self.cube_ok(cube@),
            !self.model.spec_cube_subsume_init(cube@),
            core@.len() == cube@.len(),
        ensures
            lits_subset(r@, cube@),
            !self.model.spec_cube_subsume_init(r@),
            r@.len() >= 1,
            self.cube_ok(r@),
            strictly_sorted(cube@) ==> strictly_sorted(r@),
            ({
                let picked = flagged_lits(cube@, core@, cube@.len() as int);
                if self.model.spec_cube_subsume_init(picked) {
                    r@ == flagged_lits(
                        cube@,
                        core@,
                        first_init_violation(self.model, cube@, 0),
                    )
                } else {
                    r@ == picked
                }
            }),
    {
        let n = cube.len();
        let mut ans = Cube::new();
        for i in 0..n
            invariant
                n == cube@.len() == core@.len(),
                distinct_vars(cube@),
                lits_subset(ans@, cube@),
                forall|a: int, b: int| 0 <= a < b < ans@.len() ==> ans@[a] != ans@[b],
                strictly_sorted(cube@) ==> strictly_sorted(ans@),
                strictly_sorted(cube@) ==> forall|a: int, m: int|
                    0 <= a < ans@.len() && i <= m < cube@.len() ==> (#[trigger] ans@[a]).code
                        < (#[trigger] cube@[m]).code,
                distinct_vars(cube@) ==> forall|a: int, m: int|
                    0 <= a < ans@.len() && i <= m < cube@.len() ==> (
                    #[trigger] ans@[a]).spec_var().id != (#[trigger] cube@[m]).spec_var().id,
                ans@ == flagged_lits(
                    cube@.subrange(0, i as int),
                    core@.subrange(0, i as int),
                    cube@.len() as int,
                ),
        {
            let ghost csub = cube@.subrange(0, i + 1);
            let ghost bsub = core@.subrange(0, i + 1);
            proof {
                assert(csub.drop_last() =~= cube@.subrange(0, i as int));
                assert(bsub.drop_last() =~= core@.subrange(0, i as int));
                assert(csub.last() == cube@[i as int]);
                assert(bsub.last() == core@[i as int]);
            }
            if core[i] {
                proof {
                    lit_filter_step(cube@, ans@, i as int);
                }
                ans.push(cube.get(i));
                proof {
                    assert(ans@ == flagged_lits(csub, bsub, cube@.len() as int));
                }
            } else {
                proof {
                    assert(ans@ == flagged_lits(csub, bsub, cube@.len() as int));
                }
            }
        }
        proof {
            assert(cube@.subrange(0, n as int) =~= cube@);
            assert(core@.subrange(0, n as int) =~= core@);
        }
        if self.model.cube_subsume_init(&ans) {
            let mut idx: usize = 0;
            let mut found = false;
            for i in 0..n
                invariant
                    n == cube@.len(),
                    self.model.maps_wf(),
                    !found ==> forall|k: int|
                        0 <= k < i ==> !lit_violates_init(self.model, #[trigger] cube@[k]),
                    found ==> idx < n && lit_violates_init(self.model, cube@[idx as int])
                        && forall|k: int|
                        0 <= k < idx ==> !lit_violates_init(self.model, #[trigger] cube@[k]),
            {
                if !found {
                    let l = cube.get(i);
                    let v = l.var();
                    if (v.id as usize) < self.model.init.len() {
                        if let Some(b) = self.model.init[v.id as usize] {
                            if b != l.polarity() {
                                idx = i;
                                found = true;
                            }
                        }
                    }
                    proof {
                        if !found {
                            assert(!lit_violates_init(self.model, cube@[i as int]));
                        }
                    }
                }
            }
            proof {
                if !found {
                    assert forall|k: int| 0 <= k < cube@.len() implies {
                        let v = (#[trigger] cube@[k]).spec_var();
                        v.id < self.model.init@.len() && self.model.init@[v.id
                            as int] is Some ==> self.model.init@[v.id as int]->Some_0
                            == cube@[k].spec_polarity()
                    } by {
                        assert(!lit_violates_init(self.model, cube@[k]));
                    }
                    assert(self.model.spec_cube_subsume_init(cube@));
                    assert(false);
                }
                lemma_first_violation_at(self.model, cube@, idx as int, 0);
            }
            let mut repaired = Cube::new();
            for i in 0..n
                invariant
                    n == cube@.len() == core@.len(),
                    idx < n,
                    distinct_vars(cube@),
                    lits_subset(repaired@, cube@),
                    forall|a: int, b: int|
                        0 <= a < b < repaired@.len() ==> repaired@[a] != repaired@[b],
                    strictly_sorted(cube@) ==> strictly_sorted(repaired@),
                    strictly_sorted(cube@) ==> forall|a: int, m: int|
                        0 <= a < repaired@.len() && i <= m < cube@.len() ==> (
                        #[trigger] repaired@[a]).code < (#[trigger] cube@[m]).code,
                    distinct_vars(cube@) ==> forall|a: int, m: int|
                        0 <= a < repaired@.len() && i <= m < cube@.len() ==> (
                        #[trigger] repaired@[a]).spec_var().id != (
                        #[trigger] cube@[m]).spec_var().id,
                    i > idx ==> repaired@.contains(cube@[idx as int]),
                    repaired@ == flagged_lits(
                        cube@.subrange(0, i as int),
                        core@.subrange(0, i as int),
                        idx as int,
                    ),
            {
                let ghost prev = repaired@;
                let ghost csub = cube@.subrange(0, i + 1);
                let ghost bsub = core@.subrange(0, i + 1);
                proof {
                    assert(csub.drop_last() =~= cube@.subrange(0, i as int));
                    assert(bsub.drop_last() =~= core@.subrange(0, i as int));
                    assert(csub.last() == cube@[i as int]);
                    assert(bsub.last() == core@[i as int]);
                }
                if core[i] || i == idx {
                    proof {
                        lit_filter_step(cube@, repaired@, i as int);
                    }
                    repaired.push(cube.get(i));
                    proof {
                        assert(repaired@ == flagged_lits(csub, bsub, idx as int));
                    }
                } else {
                    proof {
                        assert(repaired@ == flagged_lits(csub, bsub, idx as int));
                    }
                }
                proof {
                    if i >= idx {
                        if i == idx {
                            assert(repaired@[prev.len() as int] == cube@[idx as int]);
                        } else if prev.contains(cube@[idx as int]) {
                            let w = choose|w: int|
                                0 <= w < prev.len() && prev[w] == cube@[idx as int];
                            assert(repaired@[w] == cube@[idx as int]);
                        }
                    }
                }
            }
            proof {
                assert(cube@.subrange(0, n as int) =~= cube@);
                assert(core@.subrange(0, n as int) =~= core@);
                assert(repaired@.contains(cube@[idx as int]));
                let w = choose|w: int|
                    0 <= w < repaired@.len() && repaired@[w] == cube@[idx as int];
                assert(!self.model.spec_cube_subsume_init(repaired@));
                crate::cube::lemma_distinct_vars_subset(repaired@, cube@);
                crate::model::lemma_cube_has_next_subset(self.model, repaired@, cube@);
            }
            return repaired;
        }
        proof {
            crate::cube::lemma_distinct_vars_subset(ans@, cube@);
            crate::model::lemma_cube_has_next_subset(self.model, ans@, cube@);
        }
        ans
    }

    /// The predecessor cube read off a satisfying model: each prime
    /// variable's value, projected back onto its latch variable.
    pub fn predecessor_from_primes(&self, vals: &Vec<bool>) -> (r: Cube)
        requires
            self.model.maps_wf(),
            vals@.len() == self.model.primes@.len(),
        ensures
            r@.len() == self.model.latchs@.len(),
            forall|k: int|
                0 <= k < r@.len() ==> (#[trigger] r@[k]).spec_var()
                    == self.model.latchs@[k] && r@[k].spec_polarity() == vals@[k],
            self.cube_ok(r@),
    {
        let mut cex = Cube::new();
        let n = self.model.primes.len();
        for k in 0..n
            invariant
                n == self.model.primes@.len() == vals@.len(),
                self.model.maps_wf(),
                cex@.len() == k,
                forall|q: int|
                    0 <= q < k ==> (#[trigger] cex@[q]).spec_var() == self.model.primes@[q]
                        && cex@[q].spec_polarity() == vals@[q],
                self.model.cube_has_previous(cex@),
        {
            let p = self.model.primes[k];
            proof {
                assert(self.model.latchs@[k as int].id < self.model.next@.len());
                assert(self.model.next@[self.model.latchs@[k as int].id as int] == Some(
                    self.model.primes@[k as int],
                ));
            }
            cex.push(Lit::new(p, vals[k]));
        }
        let r = self.model.cube_previous(&cex);
        proof {
            assert forall|k: int| 0 <= k < r@.len() implies (#[trigger] r@[k]).spec_var()
                == self.model.latchs@[k] && r@[k].spec_polarity() == vals@[k] by {
                assert(cex@[k].spec_var() == self.model.primes@[k]);
                assert(self.model.spec_previous_of(cex@[k].spec_var()) == Some(
                    self.model.latchs@[k],
                ));
                let li = self.model.latchs@[k];
                let pol = cex@[k].spec_polarity();
                let c = r@[k].code;
                assert(r@[k] == Model::spec_lit_through(cex@[k], li));
                assert(r@[k].code == 2 * li.id + if pol {
                    0u32
                } else {
                    1u32
                });
                assert(c / 2 == li.id && (c % 2 == 0) == pol) by {
                    let lid = li.id;
                    assert(lid <= 0x7FFF_FFFEu32 ==> ((2 * lid) / 2 == lid && (2 * lid) % 2
                        == 0 && (2 * lid + 1) / 2 == lid && (2 * lid + 1) % 2 == 1))
                        by (bit_vector);
                }
            }
            assert(distinct_vars(r@));
        }
        r
    }
}

/// Keeping literals of a cube in their own order admits the next
/// literal: it differs from everything kept so far, and under
/// sortedness its code exceeds theirs.
proof fn lit_filter_step(cube: Seq<Lit>, acc: Seq<Lit>, i: int)
    requires
        0 <= i < cube.len(),
        lits_subset(acc, cube),
        strictly_sorted(cube) ==> strictly_sorted(acc),
        strictly_sorted(cube) ==> forall|a: int, m: int|
            0 <= a < acc.len() && i <= m < cube.len() ==> (#[trigger] acc[a]).code < (
            #[trigger] cube[m]).code,
        distinct_vars(cube) ==> forall|a: int, m: int|
            0 <= a < acc.len() && i <= m < cube.len() ==> (#[trigger] acc[a]).spec_var().id
                != (#[trigger] cube[m]).spec_var().id,
    ensures
        lits_subset(acc.push(cube[i]), cube),
        strictly_sorted(cube) ==> strictly_sorted(acc.push(cube[i])),
        strictly_sorted(cube) ==> forall|a: int, m: int|
            0 <= a < acc.push(cube[i]).len() && i + 1 <= m < cube.len() ==> (#[trigger] acc.push(
                cube[i],
            )[a]).code < (#[trigger] cube[m]).code,
        distinct_vars(cube) ==> forall|a: int, m: int|
            0 <= a < acc.push(cube[i]).len() && i + 1 <= m < cube.len() ==> (#[trigger] acc.push(
                cube[i],
            )[a]).spec_var().id != (#[trigger] cube[m]).spec_var().id,
        (forall|a: int, b: int| 0 <= a < b < acc.len() ==> acc[a] != acc[b])
            && distinct_vars(cube) ==> forall|a: int, b: int|
            0 <= a < b < acc.push(cube[i]).len() ==> acc.push(cube[i])[a] != acc.push(
                cube[i],
            )[b],
{
    let acc2 = acc.push(cube[i]);
    assert(acc2[acc.len() as int] == cube[i]);
    assert forall|q: int| 0 <= q < acc2.len() implies cube.contains(#[trigger] acc2[q]) by {
        if q < acc.len() {
            assert(cube.contains(acc[q]));
        } else {
            assert(acc2[q] == cube[i]);
        }
    }
}


/// An entry of the push-failure cache matches a key and value, all
/// compared as literal sequences.
pub open spec fn pf_has(
    s: Seq<(Cube, usize, Cube)>,
    c: Seq<Lit>,
    f: int,
    x: Seq<Lit>,
) -> bool {
    exists|q: int|
        0 <= q < s.len() && (#[trigger] s[q]).0@ == c && s[q].1 == f && s[q].2@ == x
}

/// The cache holds some value for the key.
pub open spec fn pf_has_key(s: Seq<(Cube, usize, Cube)>, c: Seq<Lit>, f: int) -> bool {
    exists|q: int| 0 <= q < s.len() && (#[trigger] s[q]).0@ == c && s[q].1 == f
}

/// No key twice in the cache.
pub open spec fn pf_unique(s: Seq<(Cube, usize, Cube)>) -> bool {
    forall|a: int, b: int|
        0 <= a < b < s.len() ==> !((#[trigger] s[a]).0@ == (#[trigger] s[b]).0@ && s[a].1
            == s[b].1)
}


/// Engine states sharing model, frames and solver states share the
/// frame and solver invariants; states sharing the queue too share
/// the whole invariant.
pub proof fn lemma_wf_components(a: Ic3, b: Ic3)
    requires
        a.wf(),
        b.model == a.model,
        b.frames == a.frames,
        b.solvers == a.solvers,
    ensures
        b.model.maps_wf(),
        b.frames_wf(),
        b.solvers_wf(),
        b.obligations@ == a.obligations@ ==> b.wf(),
{
    assert forall|i: int, j: int|
        1 <= i < b.num_frames() && 0 <= j < b.frames.frame(i).len() implies {
        &&& !b.model.spec_cube_subsume_init((#[trigger] b.frames.frame(i)[j])@)
        &&& b.cube_ok(b.frames.frame(i)[j]@)
    } by {
        assert(b.frames.frame(i) == a.frames.frame(i));
        assert(!a.model.spec_cube_subsume_init((a.frames.frame(i)[j])@));
        assert(a.cube_ok(a.frames.frame(i)[j]@));
    }
    assert forall|i: int, j: int, k: int|
        1 <= k <= i < b.num_frames() && 0 <= j < b.frames.frame(i).len()
            implies clauses_cover(
        #[trigger] b.solver_clauses(k),
        (#[trigger] b.frames.frame(i)[j])@,
    ) by {
        assert(b.frames.frame(i) == a.frames.frame(i));
        assert(b.solver_clauses(k) == a.solver_clauses(k));
        assert(clauses_cover(a.solver_clauses(k), (a.frames.frame(i)[j])@));
    }
    assert forall|j: int|
        0 <= j < b.frames.frame(0).len() && b.num_frames() > 0 implies clauses_cover(
        b.solver_clauses(0),
        (#[trigger] b.frames.frame(0)[j])@,
    ) by {
        assert(b.frames.frame(0) == a.frames.frame(0));
        assert(b.solver_clauses(0) == a.solver_clauses(0));
        assert(clauses_cover(a.solver_clauses(0), (a.frames.frame(0)[j])@));
    }
    if b.obligations@ == a.obligations@ {
        assert forall|k: int| 0 <= k < b.obligations@.len() implies {
            let po = #[trigger] b.obligations@[k];
            &&& sorted_by_code(po.cube@)
            &&& b.cube_ok(po.cube@)
            &&& !b.model.spec_cube_subsume_init(po.cube@)
        } by {
            assert(b.obligations@[k] == a.obligations@[k]);
            let po = a.obligations@[k];
            assert(sorted_by_code(po.cube@) && a.cube_ok(po.cube@)
                && !a.model.spec_cube_subsume_init(po.cube@));
        }
    }
}

impl Ic3 {
    /// Admits a proof obligation into the queue; its cube is put in
    /// canonical order by the queue itself.
    pub fn enqueue_obligation(&mut self, po: ProofObligation)
        requires
            old(self).wf(),
            old(self).cube_ok(po.cube@),
            !old(self).model.spec_cube_subsume_init(po.cube@),
        ensures
            final(self).wf(),
            final(self).model == old(self).model,
            final(self).frames == old(self).frames,
            final(self).solvers == old(self).solvers,
            final(self).push_fail == old(self).push_fail,
            final(self).bad == old(self).bad,
            final(self).lift == old(self).lift,
            final(self).obligations@.len() == old(self).obligations@.len() + 1,
            old(self).obligations@.is_prefix_of(final(self).obligations@),
            ({
                let last = final(self).obligations@[old(self).obligations@.len() as int];
                &&& last.frame == po.frame
                &&& last.depth == po.depth
                &&& last.successor == po.successor
                &&& forall|l: Lit| last.cube@.contains(l) <==> po.cube@.contains(l)
            }),
    {
        let ghost pv = po.cube@;
        self.obligations.add(po);
        proof {
            let last = self.obligations@[old(self).obligations@.len() as int];
            crate::cube::lemma_distinct_vars_permutation(pv, last.cube@);
            crate::model::lemma_cube_props_permutation(self.model, pv, last.cube@);
            assert forall|k: int| 0 <= k < self.obligations@.len() implies {
                let p2 = #[trigger] self.obligations@[k];
                &&& sorted_by_code(p2.cube@)
                &&& self.cube_ok(p2.cube@)
                &&& !self.model.spec_cube_subsume_init(p2.cube@)
            } by {
                if k < old(self).obligations@.len() {
                    assert(self.obligations@[k] == old(self).obligations@[k]);
                }
            }
            assert(old(self).obligations@.is_prefix_of(final(self).obligations@));
            lemma_wf_components(*old(self), *final(self));
        }
    }

    /// Takes the next obligation: smallest frame first, then
    /// smallest depth. Its cube is sorted, a working cube, and not
    /// subsumed by the init predicate, as every queued cube is.
    pub fn next_obligation(&mut self) -> (r: Option<ProofObligation>)
        requires
            old(self).wf(),
        ensures
            final(self).wf(),
            final(self).model == old(self).model,
            final(self).frames == old(self).frames,
            final(self).solvers == old(self).solvers,
            final(self).push_fail == old(self).push_fail,
            final(self).bad == old(self).bad,
            final(self).lift == old(self).lift,
            r is None <==> old(self).obligations@.len() == 0,
            r is None ==> final(self).obligations@ == old(self).obligations@,
            r is Some ==> {
                let po = r->Some_0;
                &&& final(self).obligations@.len() == old(self).obligations@.len() - 1
                &&& sorted_by_code(po.cube@)
                &&& final(self).cube_ok(po.cube@)
                &&& !final(self).model.spec_cube_subsume_init(po.cube@)
                &&& forall|j: int|
                    0 <= j < old(self).obligations@.len() ==> crate::obligation::ob_le(
                        po,
                        #[trigger] old(self).obligations@[j],
                    )
            },
    {
        let r = self.obligations.pop();
        proof {
            lemma_wf_components(*old(self), *final(self));
            if r is None {
                assert(final(self).obligations@ == old(self).obligations@);
            }
            if r is Some {
                let i = choose|i: int|
                    0 <= i < old(self).obligations@.len() && old(self).obligations@[i]
                        == r->Some_0 && final(self).obligations@ == old(self).obligations@.remove(i);
                assert forall|k: int| 0 <= k < self.obligations@.len() implies {
                    let p2 = #[trigger] self.obligations@[k];
                    &&& sorted_by_code(p2.cube@)
                    &&& self.cube_ok(p2.cube@)
                    &&& !self.model.spec_cube_subsume_init(p2.cube@)
                } by {
                    if k < i {
                        assert(self.obligations@[k] == old(self).obligations@[k]);
                    } else {
                        assert(self.obligations@[k] == old(self).obligations@[k + 1]);
                    }
                }
            }
        }
        r
    }

    /// Empties the push-failure cache, as each propagation pass
    /// begins by doing.
    pub fn push_fail_clear(&mut self)
        requires
            old(self).wf(),
        ensures
            final(self).wf(),
            *final(self) == (Ic3 { push_fail: final(self).push_fail, ..*old(self) }),
            final(self).push_fail@.len() == 0,
    {
        self.push_fail.clear();
        proof {
            lemma_wf_components(*old(self), *final(self));
        }
    }

    /// Stores the counterexample cube that refuted pushing `cube`
    /// forward from `frame`, replacing any earlier entry for the
    /// same key.
    pub fn push_fail_insert(&mut self, cube: &Cube, frame: usize, cex: Cube)
        requires
            old(self).wf(),
            pf_unique(old(self).push_fail@),
        ensures
            final(self).wf(),
            *final(self) == (Ic3 { push_fail: final(self).push_fail, ..*old(self) }),
            pf_unique(final(self).push_fail@),
            pf_has(final(self).push_fail@, cube@, frame as int, cex@),
            forall|c2: Seq<Lit>, f2: int, x2: Seq<Lit>|
                !(c2 == cube@ && f2 == frame) ==> (pf_has(
                    final(self).push_fail@,
                    c2,
                    f2,
                    x2,
                ) <==> pf_has(old(self).push_fail@, c2, f2, x2)),
    {
        let n = self.push_fail.len();
        for q in 0..n
            invariant
                n == self.push_fail@.len(),
                *self == *old(self),
                old(self).wf(),
                pf_unique(self.push_fail@),
                forall|k: int|
                    0 <= k < q ==> !((#[trigger] self.push_fail@[k]).0@ == cube@
                        && self.push_fail@[k].1 == frame),
        {
            let hit = self.push_fail[q].1 == frame && cubes_equal(&self.push_fail[q].0, cube);
            if hit {
                let entry = (cube.duplicate(), frame, cex);
                self.push_fail.set(q, entry);
                proof {
                    assert(final(self).push_fail@[q as int].0@ == cube@);
                    assert forall|c2: Seq<Lit>, f2: int, x2: Seq<Lit>|
                        !(c2 == cube@ && f2 == frame) implies (pf_has(
                        final(self).push_fail@,
                        c2,
                        f2,
                        x2,
                    ) <==> pf_has(old(self).push_fail@, c2, f2, x2)) by {
                        if pf_has(final(self).push_fail@, c2, f2, x2) {
                            let w = choose|w: int|
                                0 <= w < final(self).push_fail@.len() && (#[trigger] final(self).push_fail@[w]).0@ == c2 && final(self).push_fail@[w].1 == f2
                                    && final(self).push_fail@[w].2@ == x2;
                            assert(w != q);
                            assert(old(self).push_fail@[w] == final(self).push_fail@[w]);
                        }
                        if pf_has(old(self).push_fail@, c2, f2, x2) {
                            let w = choose|w: int|
                                0 <= w < old(self).push_fail@.len() && (#[trigger] old(self).push_fail@[w]).0@ == c2 && old(self).push_fail@[w].1 == f2
                                    && old(self).push_fail@[w].2@ == x2;
                            assert(w != q);
                            assert(final(self).push_fail@[w] == old(self).push_fail@[w]);
                        }
                    }
                    assert forall|a: int, b: int|
                        0 <= a < b < final(self).push_fail@.len() implies !((#[trigger] final(self).push_fail@[a]).0@ == (#[trigger] final(self).push_fail@[b]).0@
                            && final(self).push_fail@[a].1 == final(self).push_fail@[b].1) by {
                        assert(old(self).push_fail@[a].0@ == final(self).push_fail@[a].0@
                            || a == q);
                    }
                    lemma_wf_components(*old(self), *final(self));
                }
                return ;
            }
        }
        let entry = (cube.duplicate(), frame, cex);
        let ghost prev = self.push_fail@;
        self.push_fail.push(entry);
        proof {
            assert(final(self).push_fail@[prev.len() as int].0@ == cube@);
            assert forall|c2: Seq<Lit>, f2: int, x2: Seq<Lit>|
                !(c2 == cube@ && f2 == frame) implies (pf_has(
                final(self).push_fail@,
                c2,
                f2,
                x2,
            ) <==> pf_has(old(self).push_fail@, c2, f2, x2)) by {
                if pf_has(final(self).push_fail@, c2, f2, x2) {
                    let w = choose|w: int|
                        0 <= w < final(self).push_fail@.len() && (#[trigger] final(self).push_fail@[w]).0@ == c2 && final(self).push_fail@[w].1 == f2 && final(self).push_fail@[w].2@ == x2;
                    assert(w < prev.len());
                    assert(old(self).push_fail@[w] == final(self).push_fail@[w]);
                }
                if pf_has(old(self).push_fail@, c2, f2, x2) {
                    let w = choose|w: int|
                        0 <= w < old(self).push_fail@.len() && (#[trigger] old(self).push_fail@[w]).0@ == c2 && old(self).push_fail@[w].1 == f2 && old(self).push_fail@[w].2@ == x2;
                    assert(final(self).push_fail@[w] == old(self).push_fail@[w]);
                }
            }
            assert forall|a: int, b: int|
                0 <= a < b < final(self).push_fail@.len() implies !((#[trigger] final(self).push_fail@[a]).0@ == (#[trigger] final(self).push_fail@[b]).0@ && final(self).push_fail@[a].1 == final(self).push_fail@[b].1) by {
                if b < prev.len() {
                    assert(final(self).push_fail@[a] == old(self).push_fail@[a]);
                    assert(final(self).push_fail@[b] == old(self).push_fail@[b]);
                } else {
                    assert(final(self).push_fail@[a] == old(self).push_fail@[a]);
                    assert(final(self).push_fail@[b].0@ == cube@);
                }
            }
            lemma_wf_components(*old(self), *final(self));
        }
    }

    /// Looks the key up; with a unique-keyed cache the answer is the
    /// stored counterexample, copied out.
    pub fn push_fail_get(&self, cube: &Cube, frame: usize) -> (r: Option<Cube>)
        ensures
            r is Some ==> pf_has(self.push_fail@, cube@, frame as int, r->Some_0@),
            r is None ==> !pf_has_key(self.push_fail@, cube@, frame as int),
    {
        let n = self.push_fail.len();
        for q in 0..n
            invariant
                n == self.push_fail@.len(),
                forall|k: int|
                    0 <= k < q ==> !((#[trigger] self.push_fail@[k]).0@ == cube@
                        && self.push_fail@[k].1 == frame),
        {
            if self.push_fail[q].1 == frame && cubes_equal(&self.push_fail[q].0, cube) {
                return Some(self.push_fail[q].2.duplicate());
            }
        }
        None
    }
}

/// Whether two cubes hold the same literal sequence.
fn cubes_equal(a: &Cube, b: &Cube) -> (r: bool)
    ensures
        r <==> a@ == b@,
{
    if a.len() != b.len() {
        assert(a@ != b@);
        return false;
    }
    let n = a.len();
    for i in 0..n
        invariant
            n == a@.len() == b@.len(),
            forall|k: int| 0 <= k < i ==> a@[k] == b@[k],
    {
        if a.get(i).code != b.get(i).code {
            return false;
        }
    }
    proof {
        assert(a@ =~= b@);
    }
    true
}


/// How one solver state changes when a temporary (retractable) cube
/// `c` with blocking clause `cl` is offered to it: nothing, if an
/// existing temporary already subsumes `c`; otherwise the clause is
/// recorded, the temporaries the new cube subsumes are dropped, and
/// the new cube joins the temporaries.
pub open spec fn temp_add_rel(o: Ic3Solver, n: Ic3Solver, c: Seq<Lit>, cl: Seq<Lit>) -> bool {
    if exists|t: int|
        0 <= t < o.temporary@.len() && lits_subset((#[trigger] o.temporary@[t])@, c) {
        n == o
    } else {
        &&& n.num_act == o.num_act
        &&& n.clauses@.len() == o.clauses@.len() + 1
        &&& o.clauses@.is_prefix_of(n.clauses@)
        &&& n.clauses@[n.clauses@.len() - 1]@ == cl
        &&& n.temporary@.len() >= 1
        &&& n.temporary@[n.temporary@.len() - 1]@ == c
        &&& forall|q: int|
            0 <= q < n.temporary@.len() - 1 ==> (exists|t: int|
                0 <= t < o.temporary@.len() && (#[trigger] n.temporary@[q])@ == (
                #[trigger] o.temporary@[t])@) && !lits_subset(c, n.temporary@[q]@)
        &&& forall|t: int|
            0 <= t < o.temporary@.len() && !lits_subset(c, (#[trigger] o.temporary@[t])@)
                ==> exists|q: int|
                0 <= q < n.temporary@.len() && (#[trigger] n.temporary@[q])@
                    == o.temporary@[t]@
    }
}

impl Ic3 {
    /// Offers the cube as a temporary clause to the solvers from 1
    /// up to `frame`, capped at the current depth. Returns the
    /// effective frame and the blocking clause of the canonically
    /// ordered cube; the caller adds that clause to the matching
    /// back-end instances wherever the state changed.
    pub fn add_temporary_cube(&mut self, frame: usize, cube: &Cube) -> (r: (usize, Clause))
        requires
            old(self).wf(),
            old(self).num_frames() >= 1,
            old(self).cube_ok(cube@),
        ensures
            final(self).wf(),
            final(self).model == old(self).model,
            final(self).frames == old(self).frames,
            final(self).obligations == old(self).obligations,
            final(self).push_fail == old(self).push_fail,
            final(self).bad == old(self).bad,
            final(self).lift == old(self).lift,
            r.0 == if frame < old(self).num_frames() - 1 {
                frame as int
            } else {
                old(self).num_frames() - 1
            },
            strictly_sorted(seq_negate(r.1@)),
            forall|l: Lit| seq_negate(r.1@).contains(l) <==> cube@.contains(l),
            forall|k: int|
                0 <= k < final(self).num_frames() && !(1 <= k <= r.0)
                    ==> #[trigger] final(self).solvers@[k] == old(self).solvers@[k],
            forall|k: int|
                1 <= k <= r.0 ==> temp_add_rel(
                    old(self).solvers@[k],
                    #[trigger] final(self).solvers@[k],
                    seq_negate(r.1@),
                    r.1@,
                ),
    {
        let depth = self.solvers.len() - 1;
        let eff = if frame < depth {
            frame
        } else {
            depth
        };
        let mut sorted = cube.duplicate();
        sorted.sort_by_var();
        proof {
            crate::cube::lemma_distinct_vars_permutation(cube@, sorted@);
            crate::cube::lemma_strictly_sorted_distinct(sorted@);
        }
        let clause = sorted.negate();
        proof {
            crate::cube::lemma_seq_negate_involutive(sorted@);
        }
        let ghost sc = sorted@;
        let ghost oldself = *old(self);
        let mut k: usize = 1;
        let end = eff + 1;
        while k < end
            invariant
                1 <= k <= end == eff + 1,
                eff < self.num_frames(),
                oldself.wf(),
                self.model == oldself.model,
                self.frames == oldself.frames,
                self.obligations == oldself.obligations,
                self.push_fail == oldself.push_fail,
                self.bad == oldself.bad,
                self.lift == oldself.lift,
                self.solvers@.len() == oldself.solvers@.len(),
                sc == sorted@,
                sorted@ == seq_negate(clause@),
                clause@ == seq_negate(sc),
                forall|kk: int|
                    0 <= kk < self.solvers@.len() && !(1 <= kk < k)
                        ==> #[trigger] self.solvers@[kk] == oldself.solvers@[kk],
                forall|kk: int|
                    1 <= kk < k ==> temp_add_rel(
                        oldself.solvers@[kk],
                        #[trigger] self.solvers@[kk],
                        sc,
                        clause@,
                    ),
            decreases end - k,
        {
            let ghost before = self.solvers@[k as int];
            let nt = self.solvers[k].temporary.len();
            let mut redundant = false;
            for t in 0..nt
                invariant
                    k < self.solvers@.len(),
                    self.solvers@[k as int] == before,
                    nt == before.temporary@.len(),
                    sc == sorted@,
                    redundant ==> exists|t2: int|
                        0 <= t2 < nt && lits_subset((#[trigger] before.temporary@[t2])@, sc),
                    !redundant ==> forall|t2: int|
                        0 <= t2 < t ==> !lits_subset((#[trigger] before.temporary@[t2])@, sc),
            {
                if !redundant {
                    if self.solvers[k].temporary[t].subsume(&sorted) {
                        redundant = true;
                    }
                }
            }
            if !redundant {
                let mut kept: Vec<Cube> = Vec::new();
                for t in 0..nt
                    invariant
                        k < self.solvers@.len(),
                        nt == self.solvers@[k as int].temporary@.len(),
                        self.solvers@[k as int] == before,
                        sc == sorted@,
                        forall|q: int|
                            0 <= q < kept@.len() ==> (exists|t2: int|
                                0 <= t2 < nt && (#[trigger] kept@[q])@ == (
                                #[trigger] before.temporary@[t2])@) && !lits_subset(
                                sc,
                                kept@[q]@,
                            ),
                        forall|t2: int|
                            0 <= t2 < t && !lits_subset(
                                sc,
                                (#[trigger] before.temporary@[t2])@,
                            ) ==> exists|q: int|
                                0 <= q < kept@.len() && (#[trigger] kept@[q])@
                                    == before.temporary@[t2]@,
                {
                    if !sorted.subsume(&self.solvers[k].temporary[t]) {
                        let ghost prev = kept@;
                        kept.push(self.solvers[k].temporary[t].duplicate());
                        proof {
                            assert(kept@[prev.len() as int]@ == before.temporary@[t as int]@);
                            assert forall|q: int| 0 <= q < kept@.len() implies (exists|t2: int|
                                0 <= t2 < nt && (#[trigger] kept@[q])@ == (
                                #[trigger] before.temporary@[t2])@) && !lits_subset(
                                sc,
                                kept@[q]@,
                            ) by {
                                if q < prev.len() {
                                    assert(kept@[q] == prev[q]);
                                }
                            }
                            assert forall|t2: int|
                                0 <= t2 < t + 1 && !lits_subset(
                                    sc,
                                    (#[trigger] before.temporary@[t2])@,
                                ) implies exists|q: int|
                                0 <= q < kept@.len() && (#[trigger] kept@[q])@
                                    == before.temporary@[t2]@ by {
                                if t2 < t {
                                    let q = choose|q: int|
                                        0 <= q < prev.len() && (#[trigger] prev[q])@
                                            == before.temporary@[t2]@;
                                    assert(kept@[q]@ == before.temporary@[t2]@);
                                } else {
                                    assert(kept@[prev.len() as int]@
                                        == before.temporary@[t2]@);
                                }
                            }
                        }
                    }
                }
                let ghost keptpre = kept@;
                kept.push(sorted.duplicate());
                self.solvers[k].temporary = kept;
                self.solvers[k].clauses.push(clause.duplicate());
                proof {
                    let now = self.solvers@[k as int];
                    assert(!(exists|t: int|
                        0 <= t < before.temporary@.len() && lits_subset(
                            (#[trigger] before.temporary@[t])@,
                            sc,
                        )));
                    assert(now.temporary@[now.temporary@.len() - 1]@ == sc);
                    assert(now.clauses@[now.clauses@.len() - 1]@ == clause@);
                    assert(before.clauses@.is_prefix_of(now.clauses@));
                    assert forall|q: int| 0 <= q < now.temporary@.len() - 1 implies (exists|
                        t: int,
                    |
                        0 <= t < before.temporary@.len() && (#[trigger] now.temporary@[q])@
                            == (#[trigger] before.temporary@[t])@) && !lits_subset(
                        sc,
                        now.temporary@[q]@,
                    ) by {
                        assert(now.temporary@[q] == keptpre[q]);
                    }
                    assert forall|t: int|
                        0 <= t < before.temporary@.len() && !lits_subset(
                            sc,
                            (#[trigger] before.temporary@[t])@,
                        ) implies exists|q: int|
                        0 <= q < now.temporary@.len() && (#[trigger] now.temporary@[q])@
                            == before.temporary@[t]@ by {
                        let q = choose|q: int|
                            0 <= q < keptpre.len() && (#[trigger] keptpre[q])@
                                == before.temporary@[t]@;
                        assert(now.temporary@[q]@ == before.temporary@[t]@);
                    }
                    assert(temp_add_rel(before, now, sc, clause@));
                }
            }
            k += 1;
        }
        proof {
            assert forall|i: int, j: int, k2: int|
                1 <= k2 <= i < self.num_frames() && 0 <= j < self.frames.frame(i).len()
                    implies clauses_cover(
                #[trigger] self.solver_clauses(k2),
                (#[trigger] self.frames.frame(i)[j])@,
            ) by {
                assert(self.frames.frame(i) == oldself.frames.frame(i));
                assert(clauses_cover(
                    oldself.solver_clauses(k2),
                    (oldself.frames.frame(i)[j])@,
                ));
                assert(oldself.solver_clauses(k2).is_prefix_of(self.solver_clauses(k2)));
                lemma_cover_extend(
                    oldself.solver_clauses(k2),
                    self.solver_clauses(k2),
                    self.frames.frame(i)[j]@,
                );
            }
            assert forall|j: int|
                0 <= j < self.frames.frame(0).len() && self.num_frames() > 0
                    implies clauses_cover(
                self.solver_clauses(0),
                (#[trigger] self.frames.frame(0)[j])@,
            ) by {
                assert(self.frames.frame(0) == oldself.frames.frame(0));
                assert(self.solver_clauses(0) == oldself.solver_clauses(0));
            }
            assert forall|k2: int| 0 <= k2 < self.obligations@.len() implies {
                let po = #[trigger] self.obligations@[k2];
                &&& sorted_by_code(po.cube@)
                &&& self.cube_ok(po.cube@)
                &&& !self.model.spec_cube_subsume_init(po.cube@)
            } by {
                let po = oldself.obligations@[k2];
                assert(sorted_by_code(po.cube@) && oldself.cube_ok(po.cube@)
                    && !oldself.model.spec_cube_subsume_init(po.cube@));
            }
            assert forall|i: int, j: int|
                1 <= i < self.num_frames() && 0 <= j < self.frames.frame(i).len() implies {
                &&& !self.model.spec_cube_subsume_init((#[trigger] self.frames.frame(i)[j])@)
                &&& self.cube_ok(self.frames.frame(i)[j]@)
            } by {
                assert(self.frames.frame(i) == oldself.frames.frame(i));
                assert(!oldself.model.spec_cube_subsume_init((oldself.frames.frame(i)[j])@));
                assert(oldself.cube_ok(oldself.frames.frame(i)[j]@));
            }
        }
        (eff, clause)
    }

    /// Charges one activation literal to the lift solver and says
    /// whether it is due for a rebuild.
    pub fn lift_prepare(&mut self) -> (r: bool)
        requires
            old(self).wf(),
        ensures
            final(self).wf(),
            *final(self) == (Ic3 { lift: final(self).lift, ..*old(self) }),
            old(self).lift.num_act < usize::MAX ==> final(self).lift.num_act == old(
                self,
            ).lift.num_act + 1,
            r == (final(self).lift.num_act > 1000),
    {
        let na = self.lift.num_act;
        if na < usize::MAX {
            self.lift.num_act = na + 1;
        }
        proof {
            lemma_wf_components(*old(self), *final(self));
        }
        self.lift.num_act > 1000
    }

    /// Starts the lift solver's state afresh, as after a rebuild of
    /// its back-end instance.
    pub fn lift_reset(&mut self)
        requires
            old(self).wf(),
        ensures
            final(self).wf(),
            *final(self) == (Ic3 { lift: final(self).lift, ..*old(self) }),
            final(self).lift.num_act == 0,
            final(self).lift.clauses@.len() == 0,
            final(self).lift.temporary@.len() == 0,
    {
        self.lift = Ic3Solver::new();
        proof {
            lemma_wf_components(*old(self), *final(self));
        }
    }

    /// The latch cube a satisfying model describes: each latch
    /// variable with the polarity the model gives it.
    pub fn latch_cube_from_vals(&self, vals: &Vec<bool>) -> (r: Cube)
        requires
            self.model.maps_wf(),
            vals@.len() == self.model.latchs@.len(),
        ensures
            r@.len() == self.model.latchs@.len(),
            forall|k: int|
                0 <= k < r@.len() ==> (#[trigger] r@[k]).spec_var()
                    == self.model.latchs@[k] && r@[k].spec_polarity() == vals@[k],
            self.cube_ok(r@),
    {
        let mut r = Cube::new();
        let n = self.model.latchs.len();
        for k in 0..n
            invariant
                n == self.model.latchs@.len() == vals@.len(),
                self.model.maps_wf(),
                r@.len() == k,
                forall|q: int|
                    0 <= q < k ==> (#[trigger] r@[q]).spec_var() == self.model.latchs@[q]
                        && r@[q].spec_polarity() == vals@[q],
        {
            let v = self.model.latchs[k];
            r.push(Lit::new(v, vals[k]));
        }
        proof {
            assert(distinct_vars(r@));
            assert forall|i: int| 0 <= i < r@.len() implies self.model.lit_has_next(
                #[trigger] r@[i],
            ) by {
                assert(self.model.next@[self.model.latchs@[i].id as int] == Some(
                    self.model.primes@[i],
                ));
            }
        }
        r
    }

    /// The assumption cube and guarded clause of a lift query: the
    /// activation literal, the primary inputs at their model values,
    /// and the latch cube in the order handed in; the clause denies
    /// the successor under the activation literal.
    pub fn lift_assumptions(&self, act: Lit, successor: &Cube, input_vals: &Vec<bool>,
        latchs: &Cube) -> (r: (Cube, Clause))
        requires
            self.model.maps_wf(),
            input_vals@.len() == self.model.inputs@.len(),
        ensures
            r.0@.len() == 1 + self.model.inputs@.len() + latchs@.len(),
            r.0@[0] == act,
            forall|k: int|
                0 <= k < self.model.inputs@.len() ==> (#[trigger] r.0@[1 + k]).spec_var()
                    == self.model.inputs@[k] && r.0@[1 + k].spec_polarity() == input_vals@[k],
            forall|k: int|
                0 <= k < latchs@.len() ==> r.0@[1 + self.model.inputs@.len() + k]
                    == latchs@[k],
            r.1@ == seq_negate(successor@).push(act.spec_negate()),
    {
        let mut assumption = Cube::new();
        assumption.push(act);
        let n = self.model.inputs.len();
        for k in 0..n
            invariant
                n == self.model.inputs@.len() == input_vals@.len(),
                self.model.maps_wf(),
                assumption@.len() == 1 + k,
                assumption@[0] == act,
                forall|q: int|
                    0 <= q < k ==> (#[trigger] assumption@[1 + q]).spec_var()
                        == self.model.inputs@[q] && assumption@[1 + q].spec_polarity()
                        == input_vals@[q],
        {
            let v = self.model.inputs[k];
            assumption.push(Lit::new(v, input_vals[k]));
        }
        let m = latchs.len();
        for k in 0..m
            invariant
                n == self.model.inputs@.len(),
                m == latchs@.len(),
                assumption@.len() == 1 + n + k,
                assumption@[0] == act,
                forall|q: int|
                    0 <= q < n ==> (#[trigger] assumption@[1 + q]).spec_var()
                        == self.model.inputs@[q],
                forall|q: int|
                    0 <= q < n ==> (#[trigger] assumption@[1 + q]).spec_polarity()
                        == input_vals@[q],
                forall|q: int| 0 <= q < k ==> assumption@[1 + n + q] == latchs@[q],
        {
            assumption.push(latchs.get(k));
        }
        let mut cls = successor.negate();
        cls.push(act.negate());
        (assumption, cls)
    }

    /// The minimal predecessor the lift query's core names: the
    /// latch literals whose negations the core holds, in order.
    pub fn lift_filter(&self, latchs: &Cube, core: &Vec<bool>) -> (r: Cube)
        requires
            self.model.maps_wf(),
            self.cube_ok(latchs@),
            core@.len() == latchs@.len(),
        ensures
            lits_subset(r@, latchs@),
            self.cube_ok(r@),
            forall|k: int| 0 <= k < latchs@.len() && core@[k] ==> r@.contains(latchs@[k]),
            forall|l: Lit|
                r@.contains(l) ==> exists|k: int|
                    0 <= k < latchs@.len() && core@[k] && latchs@[k] == l,
    {
        let n = latchs.len();
        let mut r = Cube::new();
        for i in 0..n
            invariant
                n == latchs@.len() == core@.len(),
                distinct_vars(latchs@),
                lits_subset(r@, latchs@),
                forall|a: int, b: int| 0 <= a < b < r@.len() ==> r@[a] != r@[b],
                forall|k: int| 0 <= k < i && core@[k] ==> r@.contains(latchs@[k]),
                forall|l: Lit|
                    r@.contains(l) ==> exists|k: int|
                        0 <= k < i && core@[k] && latchs@[k] == l,
        {
            let ghost prev = r@;
            if core[i] {
                r.push(latchs.get(i));
                proof {
                    assert(r@[prev.len() as int] == latchs@[i as int]);
                    assert forall|q: int| 0 <= q < r@.len() implies latchs@.contains(
                        #[trigger] r@[q],
                    ) by {
                        if q < prev.len() {
                            assert(r@[q] == prev[q]);
                            assert(latchs@.contains(prev[q]));
                        }
                    }
                    assert forall|a: int, b: int|
                        0 <= a < b < r@.len() implies r@[a] != r@[b] by {
                        if b == prev.len() {
                            assert(prev.contains(prev[a]));
                            let ka = choose|ka: int|
                                0 <= ka < i && core@[ka] && latchs@[ka] == prev[a];
                            assert(latchs@[ka].spec_var().id != latchs@[i
                                as int].spec_var().id);
                        }
                    }
                    assert forall|k: int| 0 <= k < i + 1 && core@[k] implies r@.contains(
                        latchs@[k],
                    ) by {
                        if k < i {
                            assert(prev.contains(latchs@[k]));
                            let w = choose|w: int|
                                0 <= w < prev.len() && prev[w] == latchs@[k];
                            assert(r@[w] == latchs@[k]);
                        }
                    }
                    assert forall|l: Lit| r@.contains(l) implies exists|k: int|
                        0 <= k < i + 1 && core@[k] && latchs@[k] == l by {
                        let w = choose|w: int| 0 <= w < r@.len() && r@[w] == l;
                        if w < prev.len() {
                            assert(prev.contains(l));
                        } else {
                            assert(l == latchs@[i as int]);
                        }
                    }
                }
            }
        }
        proof {
            crate::model::lemma_cube_has_next_subset(self.model, r@, latchs@);
        }
        r
    }
}


impl Ic3 {
    /// Where a propagation pass starts: from frame 1, or from the
    /// frame below the top when the last blocking round was trivial.
    /// The push-failure cache is emptied either way.
    pub fn propagate_start(&mut self, trivial: bool) -> (r: usize)
        requires
            old(self).wf(),
            old(self).num_frames() >= 2,
        ensures
            final(self).wf(),
            *final(self) == (Ic3 { push_fail: final(self).push_fail, ..*old(self) }),
            final(self).push_fail@.len() == 0,
            r == if trivial {
                if old(self).num_frames() - 2 > 1 {
                    old(self).num_frames() - 2
                } else {
                    1int
                }
            } else {
                1int
            },
    {
        self.push_fail_clear();
        let depth = self.solvers.len() - 1;
        if trivial {
            let s = depth - 1;
            if s > 1 {
                s
            } else {
                1
            }
        } else {
            1
        }
    }

    /// A snapshot of frame `i`, shortest cubes first: the order in
    /// which propagation tries to push its cubes forward.
    pub fn frame_snapshot_sorted(&self, i: usize) -> (r: Vec<Cube>)
        requires
            self.wf(),
            i < self.num_frames(),
        ensures
            r@.len() == self.frames.frame(i as int).len(),
            forall|k: int|
                0 <= k < r@.len() ==> cube_seq_has(
                    self.frames.frame(i as int),
                    (#[trigger] r@[k])@,
                ),
            forall|j: int|
                0 <= j < self.frames.frame(i as int).len() ==> cube_seq_has(
                    r@,
                    (#[trigger] self.frames.frame(i as int)[j])@,
                ),
            forall|a: int, b: int| 0 <= a < b < r@.len() ==> r@[a]@.len() <= r@[b]@.len(),
    {
        let n = self.frames.frame_len(i);
        let mut used: Vec<bool> = Vec::new();
        for k in 0..n
            invariant
                used@.len() == k,
                forall|q: int| 0 <= q < k ==> !(#[trigger] used@[q]),
        {
            used.push(false);
        }
        let mut r: Vec<Cube> = Vec::new();
        proof {
            lemma_count_true_none(used@);
        }
        for round in 0..n
            invariant
                n == self.frames.frame(i as int).len(),
                i < self.num_frames(),
                self.wf(),
                used@.len() == n,
                r@.len() == round,
                forall|k: int|
                    0 <= k < r@.len() ==> cube_seq_has(
                        self.frames.frame(i as int),
                        (#[trigger] r@[k])@,
                    ),
                forall|j: int|
                    0 <= j < n && (#[trigger] used@[j]) ==> cube_seq_has(
                        r@,
                        self.frames.frame(i as int)[j]@,
                    ),
                forall|a: int, b: int|
                    0 <= a < b < r@.len() ==> r@[a]@.len() <= r@[b]@.len(),
                forall|k: int, j: int|
                    0 <= k < r@.len() && 0 <= j < n && !used@[j] ==> (#[trigger] r@[k])@.len()
                        <= (#[trigger] self.frames.frame(i as int)[j])@.len(),
                count_true(used@) == round,
        {
            let mut best: usize = n;
            for j in 0..n
                invariant
                    n == self.frames.frame(i as int).len(),
                    i < self.num_frames(),
                    used@.len() == n,
                    best <= n,
                    best < n ==> !used@[best as int],
                    best < n ==> forall|jj: int|
                        0 <= jj < j && !(#[trigger] used@[jj]) ==> self.frames.frame(
                            i as int,
                        )[best as int]@.len() <= self.frames.frame(i as int)[jj]@.len(),
                    best == n ==> forall|jj: int| 0 <= jj < j ==> #[trigger] used@[jj],
            {
                if !used[j] {
                    if best == n {
                        best = j;
                    } else {
                        let lb = self.frames.frame_cube(i, best).len();
                        let lj = self.frames.frame_cube(i, j).len();
                        if lj < lb {
                            best = j;
                        }
                    }
                }
            }
            proof {
                if best == n {
                    lemma_count_true_full(used@);
                    assert(false);
                }
            }
            let ghost used_pre = used@;
            let ghost r_pre = r@;
            used.set(best, true);
            r.push(self.frames.frame_cube(i, best).duplicate());
            proof {
                assert(r@[r_pre.len() as int]@ == self.frames.frame(i as int)[best as int]@);
                assert(cube_seq_has(
                    self.frames.frame(i as int),
                    r@[r_pre.len() as int]@,
                ));
                assert forall|k: int| 0 <= k < r@.len() implies cube_seq_has(
                    self.frames.frame(i as int),
                    (#[trigger] r@[k])@,
                ) by {
                    if k < r_pre.len() {
                        assert(r@[k] == r_pre[k]);
                    }
                }
                assert forall|j: int|
                    0 <= j < n && (#[trigger] used@[j]) implies cube_seq_has(
                    r@,
                    self.frames.frame(i as int)[j]@,
                ) by {
                    if j != best {
                        assert(used_pre[j]);
                        let w = choose|w: int|
                            0 <= w < r_pre.len() && (#[trigger] r_pre[w])@
                                == self.frames.frame(i as int)[j]@;
                        assert(r@[w]@ == self.frames.frame(i as int)[j]@);
                    } else {
                        assert(r@[r_pre.len() as int]@ == self.frames.frame(
                            i as int,
                        )[j]@);
                    }
                }
                lemma_count_true_flip(used_pre, used@, best as int);
            }
        }
        proof {
            assert forall|j: int| 0 <= j < n implies #[trigger] used@[j] by {
                if !used@[j] {
                    lemma_count_true_missing(used@, j);
                }
            }
        }
        r
    }

    /// Whether frame `i` still holds a cube with exactly this
    /// literal sequence: propagation skips cubes that subsumption
    /// already removed.
    pub fn frame_still_holds(&self, i: usize, cube: &Cube) -> (r: bool)
        requires
            i < self.num_frames(),
        ensures
            r == cube_seq_has(self.frames.frame(i as int), cube@),
    {
        let m = self.frames.frame_len(i);
        for j in 0..m
            invariant
                i < self.num_frames(),
                m == self.frames.frame(i as int).len(),
                forall|jj: int|
                    0 <= jj < j ==> (#[trigger] self.frames.frame(i as int)[jj])@ != cube@,
        {
            if cubes_equal(self.frames.frame_cube(i, j), cube) {
                proof {
                    assert(self.frames.frame(i as int)[j as int]@ == cube@);
                }
                return true;
            }
        }
        false
    }

    /// The position of the first empty frame above 0, if any: where
    /// the inductive invariant begins once propagation converges.
    pub fn invariant_position(&self) -> (r: Option<usize>)
        ensures
            r is Some ==> {
                let p = r->Some_0;
                &&& p < self.num_frames()
                &&& self.frames.frame(p as int).len() == 0
                &&& forall|j: int| 0 <= j < p ==> self.frames.frame(j).len() > 0
            },
            r is None ==> forall|j: int|
                0 <= j < self.num_frames() ==> self.frames.frame(j).len() > 0,
    {
        let n = self.frames.len();
        for p in 0..n
            invariant
                n == self.num_frames(),
                forall|j: int| 0 <= j < p ==> self.frames.frame(j).len() > 0,
        {
            if self.frames.frame_is_empty(p) {
                return Some(p);
            }
        }
        None
    }

    /// The blocking clauses of every cube in the frames from `pos`
    /// up: the candidate inductive invariant, ready to be loaded
    /// into a fresh solver over the transition relation.
    pub fn invariant_clauses(&self, pos: usize) -> (r: Vec<Clause>)
        requires
            self.wf(),
            pos < self.num_frames(),
        ensures
            forall|q: int|
                0 <= q < r@.len() ==> self.clause_from_frames(
                    pos as int,
                    (#[trigger] r@[q])@,
                ),
            forall|i: int, j: int|
                pos <= i < self.num_frames() && 0 <= j < self.frames.frame(i).len()
                    ==> clause_listed(r@, (#[trigger] self.frames.frame(i)[j])@),
    {
        let mut r: Vec<Clause> = Vec::new();
        let n = self.frames.len();
        let mut i = pos;
        while i < n
            invariant
                n == self.num_frames(),
                pos <= i <= n,
                self.wf(),
                forall|q: int|
                    0 <= q < r@.len() ==> self.clause_from_frames(
                        pos as int,
                        (#[trigger] r@[q])@,
                    ),
                forall|i2: int, j2: int|
                    pos <= i2 < i && 0 <= j2 < self.frames.frame(i2).len() ==> clause_listed(
                        r@,
                        (#[trigger] self.frames.frame(i2)[j2])@,
                    ),
            decreases n - i,
        {
            let m = self.frames.frame_len(i);
            for j in 0..m
                invariant
                    n == self.num_frames(),
                    pos <= i < n,
                    m == self.frames.frame(i as int).len(),
                    self.wf(),
                    forall|q: int|
                        0 <= q < r@.len() ==> self.clause_from_frames(
                            pos as int,
                            (#[trigger] r@[q])@,
                        ),
                    forall|i2: int, j2: int|
                        pos <= i2 < i && 0 <= j2 < self.frames.frame(i2).len()
                            ==> clause_listed(r@, (#[trigger] self.frames.frame(i2)[j2])@),
                    forall|j2: int|
                        0 <= j2 < j ==> clause_listed(
                            r@,
                            (#[trigger] self.frames.frame(i as int)[j2])@,
                        ),
            {
                let ghost prev = r@;
                r.push(self.frames.frame_cube(i, j).negate());
                proof {
                    assert(r@[prev.len() as int]@ == seq_negate(
                        self.frames.frame(i as int)[j as int]@,
                    ));
                    assert(self.clause_from_frames(pos as int, r@[prev.len() as int]@));
                    assert(clause_listed(r@, self.frames.frame(i as int)[j as int]@));
                    assert forall|q: int| 0 <= q < r@.len() implies self.clause_from_frames(
                        pos as int,
                        (#[trigger] r@[q])@,
                    ) by {
                        if q < prev.len() {
                            assert(r@[q] == prev[q]);
                        }
                    }
                    assert forall|i2: int, j2: int|
                        pos <= i2 < i && 0 <= j2 < self.frames.frame(i2).len()
                            implies clause_listed(
                        r@,
                        (#[trigger] self.frames.frame(i2)[j2])@,
                    ) by {
                        let q = choose|q: int|
                            0 <= q < prev.len() && (#[trigger] prev[q])@ == seq_negate(
                                (self.frames.frame(i2)[j2])@,
                            );
                        assert(r@[q] == prev[q]);
                        assert(clause_listed(r@, (self.frames.frame(i2)[j2])@));
                    }
                    assert forall|j2: int| 0 <= j2 < j + 1 implies clause_listed(
                        r@,
                        (#[trigger] self.frames.frame(i as int)[j2])@,
                    ) by {
                        if j2 < j {
                            let q = choose|q: int|
                                0 <= q < prev.len() && (#[trigger] prev[q])@ == seq_negate(
                                    (self.frames.frame(i as int)[j2])@,
                                );
                            assert(r@[q] == prev[q]);
                        }
                    }
                }
            }
            i += 1;
        }
        r
    }

    /// The clause blocks some cube of a frame at or above `pos`.
    pub open spec fn clause_from_frames(self, pos: int, cl: Seq<Lit>) -> bool {
        exists|i: int, j: int|
            pos <= i < self.num_frames() && 0 <= j < self.frames.frame(i).len() && cl
                == seq_negate((#[trigger] self.frames.frame(i)[j])@)
    }

}

/// How many entries of a Boolean sequence are true.
pub open spec fn count_true(s: Seq<bool>) -> int
    decreases s.len(),
{
    if s.len() == 0 {
        0
    } else {
        count_true(s.drop_last()) + if s.last() {
            1int
        } else {
            0
        }
    }
}

/// An all-false sequence counts zero.
proof fn lemma_count_true_none(s: Seq<bool>)
    requires
        forall|j: int| 0 <= j < s.len() ==> !s[j],
    ensures
        count_true(s) == 0,
    decreases s.len(),
{
    if s.len() > 0 {
        lemma_count_true_none(s.drop_last());
    }
}

/// Every entry true means a full count.
proof fn lemma_count_true_full(s: Seq<bool>)
    requires
        forall|j: int| 0 <= j < s.len() ==> s[j],
    ensures
        count_true(s) == s.len(),
    decreases s.len(),
{
    if s.len() > 0 {
        lemma_count_true_full(s.drop_last());
    }
}

/// A full count means every entry is true.
proof fn lemma_count_true_all(s: Seq<bool>)
    requires
        count_true(s) == s.len(),
    ensures
        forall|j: int| 0 <= j < s.len() ==> s[j],
    decreases s.len(),
{
    if s.len() > 0 {
        lemma_count_true_bound(s.drop_last());
        lemma_count_true_all(s.drop_last());
        assert(s[s.len() - 1] == s.last());
        assert forall|j: int| 0 <= j < s.len() implies s[j] by {
            if j < s.len() - 1 {
                assert(s.drop_last()[j]);
            }
        }
    }
}

/// The count never exceeds the length.
proof fn lemma_count_true_bound(s: Seq<bool>)
    ensures
        count_true(s) <= s.len(),
    decreases s.len(),
{
    if s.len() > 0 {
        lemma_count_true_bound(s.drop_last());
    }
}

/// A false entry keeps the count below the length.
proof fn lemma_count_true_missing(s: Seq<bool>, j: int)
    requires
        0 <= j < s.len(),
        !s[j],
    ensures
        count_true(s) < s.len(),
    decreases s.len(),
{
    if j == s.len() - 1 {
        lemma_count_true_bound(s.drop_last());
    } else {
        lemma_count_true_missing(s.drop_last(), j);
    }
}

/// Turning one false entry true raises the count by one.
proof fn lemma_count_true_flip(a: Seq<bool>, b: Seq<bool>, j: int)
    requires
        a.len() == b.len(),
        0 <= j < a.len(),
        !a[j],
        b[j],
        forall|k: int| 0 <= k < a.len() && k != j ==> a[k] == b[k],
    ensures
        count_true(b) == count_true(a) + 1,
    decreases a.len(),
{
    if j == a.len() - 1 {
        assert(a.drop_last() =~= b.drop_last());
    } else {
        lemma_count_true_flip(a.drop_last(), b.drop_last(), j);
        assert(a.last() == b.last());
    }
}


/// No frame above 0 ever holds a cube the init predicate subsumes:
/// every blocking cube excludes at least one initial state.
pub proof fn lemma_frames_exclude_init(e: Ic3, i: int, j: int)
    requires
        e.wf(),
        1 <= i < e.num_frames(),
        0 <= j < e.frames.frame(i).len(),
    ensures
        !e.model.spec_cube_subsume_init(e.frames.frame(i)[j]@),
{
}

/// Frames are nested in the solvers' eyes: for every cube of frame
/// `i` and every frame index `k` from 1 up to `i`, the solver for
/// frame `k` holds a clause at least as strong as the cube's
/// blocking clause, so the cube is blocked there as well.
pub proof fn lemma_frames_blocked_below(e: Ic3, i: int, j: int, k: int)
    requires
        e.wf(),
        1 <= k <= i < e.num_frames(),
        0 <= j < e.frames.frame(i).len(),
    ensures
        clauses_cover(e.solver_clauses(k), e.frames.frame(i)[j]@),
{
}

} // verus!
