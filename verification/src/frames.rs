//! The frame stack.
//!
//! Frame 0 holds the initial predicate as cubes; frame k for k >= 1
//! over-approximates the states reachable in at most k steps, each
//! cube standing for the clause that denies it. From frame 1 up every
//! cube is kept in canonical variable order, and insertion maintains
//! ordered subsumption: a new cube removes every weaker cube at or
//! below its frame.

use crate::cube::{distinct_vars, lits_subset, strictly_sorted, Cube};
use crate::lits::Lit;
use vstd::prelude::*;

verus! {

/// The views of the cubes of a frame that subsume `c`, in frame
/// order, one entry per stored cube.
pub open spec fn subsuming_of(frame: Seq<Cube>, c: Seq<Lit>) -> Seq<Seq<Lit>>
    decreases frame.len(),
{
    if frame.len() == 0 {
        Seq::empty()
    } else {
        let rest = subsuming_of(frame.drop_last(), c);
        if lits_subset(frame.last()@, c) {
            rest.push(frame.last()@)
        } else {
            rest
        }
    }
}

/// Whether some cube of `s` has exactly the literal sequence `c`.
pub open spec fn cube_seq_has(s: Seq<Cube>, c: Seq<Lit>) -> bool {
    exists|k: int| 0 <= k < s.len() && (#[trigger] s[k])@ == c
}

/// The stack of cube sets.
#[derive(Debug)]
pub struct Frames {
    pub frames: Vec<Vec<Cube>>,
}

impl Frames {
    /// The cube sequence of frame `i`.
    pub open spec fn frame(self, i: int) -> Seq<Cube> {
        self.frames@[i]@
    }

    /// How many frames stand.
    pub open spec fn num_frames(self) -> int {
        self.frames@.len() as int
    }

    /// Every cube of every frame above 0 is in canonical variable
    /// order.
    pub open spec fn wf(self) -> bool {
        forall|i: int, j: int|
            1 <= i < self.num_frames() && 0 <= j < self.frame(i).len() ==> strictly_sorted(
                (#[trigger] self.frame(i)[j])@,
            )
    }

    /// Some frame at or above `frame` holds a cube subsuming `c`.
    pub open spec fn spec_contained_from(self, frame: int, c: Seq<crate::lits::Lit>) -> bool {
        exists|i: int, j: int|
            frame <= i < self.num_frames() && 0 <= j < self.frame(i).len() && lits_subset(
                (#[trigger] self.frame(i)[j])@,
                c,
            )
    }

    pub fn new() -> (r: Frames)
        ensures
            r.num_frames() == 0,
            r.wf(),
    {
        Frames { frames: Vec::new() }
    }

    /// Opens a fresh, empty frame at the top.
    pub fn new_frame(&mut self)
        requires
            old(self).wf(),
        ensures
            final(self).wf(),
            final(self).num_frames() == old(self).num_frames() + 1,
            forall|i: int|
                0 <= i < old(self).num_frames() ==> final(self).frame(i) == old(self).frame(i),
            final(self).frame(old(self).num_frames()).len() == 0,
    {
        self.frames.push(Vec::new());
        proof {
            assert forall|i: int| 0 <= i < old(self).num_frames() implies final(self).frame(i)
                == old(self).frame(i) by {
                assert(final(self).frames@[i] == old(self).frames@[i]);
            }
        }
    }

    pub fn len(&self) -> (n: usize)
        ensures
            n == self.num_frames(),
    {
        self.frames.len()
    }

    /// How many cubes frame `i` holds.
    pub fn frame_len(&self, i: usize) -> (n: usize)
        requires
            i < self.num_frames(),
        ensures
            n == self.frame(i as int).len(),
    {
        self.frames[i].len()
    }

    /// The cube at position `j` of frame `i`.
    pub fn frame_cube(&self, i: usize, j: usize) -> (c: &Cube)
        requires
            i < self.num_frames(),
            j < self.frame(i as int).len(),
        ensures
            *c == self.frame(i as int)[j as int],
    {
        &self.frames[i][j]
    }

    /// Whether some frame at or above `frame` already holds a cube
    /// that ordered-subsumes `cube`: then `cube` is redundant there.
    pub fn trivial_contained(&self, frame: usize, cube: &Cube) -> (r: bool)
        requires
            self.wf(),
            1 <= frame,
            strictly_sorted(cube@),
        ensures
            r == self.spec_contained_from(frame as int, cube@),
    {
        let n = self.frames.len();
        let mut i = frame;
        while i < n
            invariant
                n == self.num_frames(),
                self.wf(),
                strictly_sorted(cube@),
                1 <= frame <= i,
                forall|ii: int, jj: int|
                    frame <= ii < i && 0 <= jj < self.frame(ii).len() ==> !lits_subset(
                        (#[trigger] self.frame(ii)[jj])@,
                        cube@,
                    ),
            decreases n - i,
        {
            let m = self.frames[i].len();
            for j in 0..m
                invariant
                    n == self.num_frames(),
                    1 <= frame <= i < n,
                    m == self.frame(i as int).len(),
                    self.wf(),
                    strictly_sorted(cube@),
                    forall|k: int|
                        0 <= k < j ==> !lits_subset((#[trigger] self.frame(i as int)[k])@, cube@),
                    forall|ii: int, jj: int|
                        frame <= ii < i && 0 <= jj < self.frame(ii).len() ==> !lits_subset(
                            (#[trigger] self.frame(ii)[jj])@,
                            cube@,
                        ),
            {
                proof {
                    assert(strictly_sorted((self.frame(i as int)[j as int])@));
                }
                if self.frames[i][j].ordered_subsume(cube) {
                    return true;
                }
            }
            i += 1;
        }
        false
    }

    /// The cubes of frame `frame - 1` that ordered-subsume `cube`,
    /// in frame order: the parents that a generalization pass may
    /// shortcut through. At frame 1 there is no parent frame and the
    /// answer is empty.
    pub fn parent(&self, cube: &Cube, frame: usize) -> (r: Vec<Cube>)
        requires
            self.wf(),
            1 <= frame,
            distinct_vars(cube@),
            frame == 1 || frame - 1 < self.num_frames(),
        ensures
            frame == 1 ==> r@.len() == 0,
            frame > 1 ==> r@.len() == subsuming_of(self.frame(frame - 1), cube@).len()
                && forall|k: int|
                0 <= k < r@.len() ==> (#[trigger] r@[k])@ == subsuming_of(
                    self.frame(frame - 1),
                    cube@,
                )[k],
            forall|k: int|
                0 <= k < r@.len() ==> cube_seq_has(self.frame(frame - 1), (#[trigger] r@[k])@)
                    && lits_subset(r@[k]@, cube@),
            frame > 1 ==> forall|j: int|
                0 <= j < self.frame(frame - 1).len() && lits_subset(
                    (#[trigger] self.frame(frame - 1)[j])@,
                    cube@,
                ) ==> cube_seq_has(r@, self.frame(frame - 1)[j]@),
    {
        let ghost old_cube_view = cube@;
        let mut r: Vec<Cube> = Vec::new();
        if frame == 1 {
            return r;
        }
        let mut cube = cube.duplicate();
        cube.sort_by_var();
        proof {
            crate::cube::lemma_distinct_vars_permutation(old_cube_view, cube@);
            crate::cube::lemma_strictly_sorted_distinct(cube@);
            assert forall|x: Seq<Lit>| lits_subset(x, cube@) == lits_subset(
                x,
                old_cube_view,
            ) by {
                if lits_subset(x, cube@) {
                    assert forall|i: int| 0 <= i < x.len() implies old_cube_view.contains(
                        #[trigger] x[i],
                    ) by {
                        assert(cube@.contains(x[i]));
                    }
                }
                if lits_subset(x, old_cube_view) {
                    assert forall|i: int| 0 <= i < x.len() implies cube@.contains(
                        #[trigger] x[i],
                    ) by {
                        assert(old_cube_view.contains(x[i]));
                    }
                }
            }
        }
        let ghost sorted_cube = cube@;
        let m = self.frames[frame - 1].len();
        for j in 0..m
            invariant
                m == self.frame(frame - 1).len(),
                1 < frame,
                frame - 1 < self.num_frames(),
                self.wf(),
                strictly_sorted(cube@),
                cube@ == sorted_cube,
                forall|x: Seq<Lit>| lits_subset(x, sorted_cube) == lits_subset(x, old_cube_view),
                forall|k: int|
                    0 <= k < r@.len() ==> cube_seq_has(
                        self.frame(frame - 1),
                        (#[trigger] r@[k])@,
                    ) && lits_subset(r@[k]@, old_cube_view),
                forall|jj: int|
                    0 <= jj < j && lits_subset(
                        (#[trigger] self.frame(frame - 1)[jj])@,
                        old_cube_view,
                    ) ==> cube_seq_has(r@, self.frame(frame - 1)[jj]@),
                r@.len() == subsuming_of(
                    self.frame(frame - 1).subrange(0, j as int),
                    old_cube_view,
                ).len(),
                forall|k: int|
                    0 <= k < r@.len() ==> (#[trigger] r@[k])@ == subsuming_of(
                        self.frame(frame - 1).subrange(0, j as int),
                        old_cube_view,
                    )[k],
        {
            let ghost fsub = self.frame(frame - 1).subrange(0, j + 1);
            proof {
                assert(fsub.drop_last() =~= self.frame(frame - 1).subrange(0, j as int));
                assert(fsub.last() == self.frame(frame - 1)[j as int]);
            }
            if self.frames[frame - 1][j].ordered_subsume(&cube) {
                let ghost prev = r@;
                r.push(self.frames[frame - 1][j].duplicate());
                proof {
                    assert(r@[prev.len() as int]@ == self.frame(frame - 1)[j as int]@);
                    assert(cube_seq_has(self.frame(frame - 1), r@[prev.len() as int]@));
                    assert(cube_seq_has(r@, self.frame(frame - 1)[j as int]@));
                    assert(lits_subset(self.frame(frame - 1)[j as int]@, old_cube_view));
                    assert(subsuming_of(fsub, old_cube_view) == subsuming_of(
                        self.frame(frame - 1).subrange(0, j as int),
                        old_cube_view,
                    ).push(self.frame(frame - 1)[j as int]@));
                    assert forall|k: int| 0 <= k < r@.len() implies (#[trigger] r@[k])@
                        == subsuming_of(fsub, old_cube_view)[k] by {
                        if k < prev.len() {
                            assert(r@[k] == prev[k]);
                        }
                    }
                    assert forall|k: int| 0 <= k < r@.len() implies cube_seq_has(
                        self.frame(frame - 1),
                        (#[trigger] r@[k])@,
                    ) && lits_subset(r@[k]@, old_cube_view) by {
                        if k < prev.len() {
                            assert(r@[k] == prev[k]);
                        }
                    }
                    assert forall|jj: int|
                        0 <= jj < j + 1 && lits_subset(
                            (#[trigger] self.frame(frame - 1)[jj])@,
                            old_cube_view,
                        ) implies cube_seq_has(r@, self.frame(frame - 1)[jj]@) by {
                        if jj < j {
                            let k = choose|k: int|
                                0 <= k < prev.len() && (#[trigger] prev[k])@ == self.frame(
                                    frame - 1,
                                )[jj]@;
                            assert(r@[k]@ == self.frame(frame - 1)[jj]@);
                        }
                    }
                }
            } else {
                proof {
                    assert forall|jj: int|
                        0 <= jj < j + 1 && lits_subset(
                            (#[trigger] self.frame(frame - 1)[jj])@,
                            old_cube_view,
                        ) implies cube_seq_has(r@, self.frame(frame - 1)[jj]@) by {
                        if jj == j {
                            assert(!lits_subset(self.frame(frame - 1)[jj]@, sorted_cube));
                            assert(false);
                        }
                    }
                    assert(!lits_subset(self.frame(frame - 1)[j as int]@, old_cube_view));
                    assert(subsuming_of(fsub, old_cube_view) == subsuming_of(
                        self.frame(frame - 1).subrange(0, j as int),
                        old_cube_view,
                    ));
                }
            }
        }
        proof {
            assert(self.frame(frame - 1).subrange(0, m as int) =~= self.frame(frame - 1));
        }
        r
    }
}


impl Frames {
    /// Whether frame `i` is empty.
    pub fn frame_is_empty(&self, i: usize) -> (r: bool)
        requires
            i < self.num_frames(),
        ensures
            r == (self.frame(i as int).len() == 0),
    {
        self.frames[i].len() == 0
    }

    /// Appends a cube to frame `i`.
    pub fn push_cube(&mut self, i: usize, cube: Cube)
        requires
            old(self).wf(),
            i < old(self).num_frames(),
            i >= 1 ==> strictly_sorted(cube@),
        ensures
            final(self).wf(),
            final(self).num_frames() == old(self).num_frames(),
            forall|k: int|
                0 <= k < old(self).num_frames() && k != i ==> final(self).frame(k)
                    == old(self).frame(k),
            final(self).frame(i as int) == old(self).frame(i as int).push(cube),
    {
        self.frames[i].push(cube);
        proof {
            assert forall|k: int|
                0 <= k < old(self).num_frames() && k != i implies final(self).frame(k)
                == old(self).frame(k) by {
                assert(final(self).frames@[k] == old(self).frames@[k]);
            }
            assert forall|ii: int, jj: int|
                1 <= ii < final(self).num_frames() && 0 <= jj < final(self).frame(ii).len()
                    implies strictly_sorted((#[trigger] final(self).frame(ii)[jj])@) by {
                if ii == i && jj == old(self).frame(ii).len() {
                } else {
                    assert(final(self).frame(ii)[jj] == old(self).frame(ii)[jj]);
                }
            }
        }
    }

    /// Removes from frame `i` every cube the new cube subsumes, and
    /// reports whether frame `i` held a cube subsuming the new one:
    /// then the new clause is already implied there.
    pub fn prune_subsumed(&mut self, i: usize, cube: &Cube) -> (had_subsumer: bool)
        requires
            old(self).wf(),
            1 <= i < old(self).num_frames(),
            strictly_sorted(cube@),
        ensures
            final(self).wf(),
            final(self).num_frames() == old(self).num_frames(),
            forall|k: int|
                0 <= k < old(self).num_frames() && k != i ==> final(self).frame(k)
                    == old(self).frame(k),
            forall|j: int|
                0 <= j < final(self).frame(i as int).len() ==> cube_seq_has(
                    old(self).frame(i as int),
                    (#[trigger] final(self).frame(i as int)[j])@,
                ) && !lits_subset(cube@, final(self).frame(i as int)[j]@),
            forall|j: int|
                0 <= j < old(self).frame(i as int).len() && !lits_subset(
                    cube@,
                    (#[trigger] old(self).frame(i as int)[j])@,
                ) ==> cube_seq_has(final(self).frame(i as int), old(self).frame(i as int)[j]@),
            had_subsumer == exists|j: int|
                0 <= j < old(self).frame(i as int).len() && lits_subset(
                    (#[trigger] old(self).frame(i as int)[j])@,
                    cube@,
                ),
    {
        let mut kept: Vec<Cube> = Vec::new();
        let mut had_subsumer = false;
        let m = self.frames[i].len();
        for j in 0..m
            invariant
                m == self.frame(i as int).len(),
                1 <= i < self.num_frames(),
                self.wf(),
                strictly_sorted(cube@),
                forall|k: int|
                    0 <= k < kept@.len() ==> cube_seq_has(
                        self.frame(i as int),
                        (#[trigger] kept@[k])@,
                    ) && !lits_subset(cube@, kept@[k]@) && strictly_sorted(kept@[k]@),
                forall|jj: int|
                    0 <= jj < j && !lits_subset(
                        cube@,
                        (#[trigger] self.frame(i as int)[jj])@,
                    ) ==> cube_seq_has(kept@, self.frame(i as int)[jj]@),
                had_subsumer == exists|jj: int|
                    0 <= jj < j && lits_subset((#[trigger] self.frame(i as int)[jj])@, cube@),
        {
            let c = &self.frames[i][j];
            proof {
                assert(strictly_sorted((self.frame(i as int)[j as int])@));
            }
            if c.ordered_subsume(cube) {
                had_subsumer = true;
                proof {
                    assert(lits_subset((self.frame(i as int)[j as int])@, cube@));
                }
            }
            if !cube.ordered_subsume(c) {
                let ghost prev = kept@;
                kept.push(c.duplicate());
                proof {
                    assert(kept@[prev.len() as int]@ == self.frame(i as int)[j as int]@);
                    assert(cube_seq_has(self.frame(i as int), kept@[prev.len() as int]@));
                    assert(cube_seq_has(kept@, self.frame(i as int)[j as int]@));
                    assert forall|k: int| 0 <= k < kept@.len() implies cube_seq_has(
                        self.frame(i as int),
                        (#[trigger] kept@[k])@,
                    ) && !lits_subset(cube@, kept@[k]@) && strictly_sorted(kept@[k]@) by {
                        if k < prev.len() {
                            assert(kept@[k] == prev[k]);
                        }
                    }
                    assert forall|jj: int|
                        0 <= jj < j + 1 && !lits_subset(
                            cube@,
                            (#[trigger] self.frame(i as int)[jj])@,
                        ) implies cube_seq_has(kept@, self.frame(i as int)[jj]@) by {
                        if jj < j {
                            let k = choose|k: int|
                                0 <= k < prev.len() && (#[trigger] prev[k])@ == self.frame(
                                    i as int,
                                )[jj]@;
                            assert(kept@[k]@ == self.frame(i as int)[jj]@);
                        }
                    }
                }
            }
        }
        let ghost old_frame = self.frame(i as int);
        self.frames.set(i, kept);
        proof {
            assert(final(self).frame(i as int) == kept@);
            assert forall|k: int|
                0 <= k < old(self).num_frames() && k != i implies final(self).frame(k)
                == old(self).frame(k) by {
                assert(final(self).frames@[k] == old(self).frames@[k]);
            }
            assert forall|ii: int, jj: int|
                1 <= ii < final(self).num_frames() && 0 <= jj < final(self).frame(ii).len()
                    implies strictly_sorted((#[trigger] final(self).frame(ii)[jj])@) by {
                if ii != i {
                    assert(final(self).frame(ii)[jj] == old(self).frame(ii)[jj]);
                }
            }
        }
        had_subsumer
    }
}

} // verus!
