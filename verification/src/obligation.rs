//! Proof obligations and their priority queue.
//!
//! An obligation claims that a cube is reachable at a frame; the
//! engine must refute or refine it. The queue hands obligations out
//! smallest frame first, ties broken by smallest depth, as the
//! blocking loop demands.

use crate::cube::{sorted_by_code, Cube};
use vstd::prelude::*;

verus! {

/// A claim "this cube is reachable at this frame", with the search
/// depth that produced it and the successor cube it would reach.
#[derive(Clone, Debug)]
pub struct ProofObligation {
    pub frame: usize,
    pub cube: Cube,
    pub depth: usize,
    pub successor: Option<Cube>,
}

impl ProofObligation {
    pub fn new(frame: usize, cube: Cube, depth: usize, successor: Option<Cube>) -> (po:
        ProofObligation)
        ensures
            po.frame == frame,
            po.cube == cube,
            po.depth == depth,
            po.successor == successor,
    {
        ProofObligation { frame, cube, depth, successor }
    }
}

/// The queue order: lower frame first, then lower depth.
pub open spec fn ob_le(a: ProofObligation, b: ProofObligation) -> bool {
    a.frame < b.frame || (a.frame == b.frame && a.depth <= b.depth)
}

/// A min-queue of proof obligations on the (frame, depth) order.
pub struct ProofObligationQueue {
    pub obligations: Vec<ProofObligation>,
}

impl View for ProofObligationQueue {
    type V = Seq<ProofObligation>;

    open spec fn view(&self) -> Seq<ProofObligation> {
        self.obligations@
    }
}

impl ProofObligationQueue {
    pub fn new() -> (q: ProofObligationQueue)
        ensures
            q@.len() == 0,
    {
        ProofObligationQueue { obligations: Vec::new() }
    }

    pub fn is_empty(&self) -> (r: bool)
        ensures
            r == (self@.len() == 0),
    {
        self.obligations.len() == 0
    }

    pub fn len(&self) -> (n: usize)
        ensures
            n == self@.len(),
    {
        self.obligations.len()
    }

    /// Admits an obligation; its cube is put in canonical variable
    /// order first.
    pub fn add(&mut self, po: ProofObligation)
        ensures
            final(self)@.len() == old(self)@.len() + 1,
            final(self)@.subrange(0, old(self)@.len() as int) == old(self)@,
            ({
                let last = final(self)@[old(self)@.len() as int];
                &&& last.frame == po.frame
                &&& last.depth == po.depth
                &&& last.successor == po.successor
                &&& last.cube@.to_multiset() == po.cube@.to_multiset()
                &&& sorted_by_code(last.cube@)
                &&& forall|l: crate::lits::Lit|
                    last.cube@.contains(l) <==> po.cube@.contains(l)
            }),
    {
        let mut po = po;
        po.cube.sort_by_var();
        self.obligations.push(po);
        proof {
            assert(final(self)@.subrange(0, old(self)@.len() as int) =~= old(self)@);
        }
    }

    /// Hands out an obligation with the smallest frame, ties broken
    /// by smallest depth; the queue loses exactly that obligation.
    pub fn pop(&mut self) -> (r: Option<ProofObligation>)
        ensures
            old(self)@.len() == 0 ==> r is None && final(self)@ == old(self)@,
            old(self)@.len() > 0 ==> {
                &&& r is Some
                &&& exists|i: int|
                    0 <= i < old(self)@.len() && old(self)@[i] == r->Some_0 && final(self)@
                        == old(self)@.remove(i)
                &&& forall|j: int| 0 <= j < old(self)@.len() ==> ob_le(r->Some_0, old(self)@[j])
            },
    {
        let n = self.obligations.len();
        if n == 0 {
            return None;
        }
        let mut best: usize = 0;
        for k in 1..n
            invariant
                n == self.obligations@.len(),
                0 <= best < k <= n,
                forall|j: int| 0 <= j < k ==> ob_le(self@[best as int], self@[j]),
        {
            let better = if self.obligations[k].frame < self.obligations[best].frame {
                true
            } else if self.obligations[k].frame == self.obligations[best].frame {
                self.obligations[k].depth < self.obligations[best].depth
            } else {
                false
            };
            if better {
                best = k;
            }
        }
        let po = self.obligations.remove(best);
        proof {
            assert(old(self)@[best as int] == po);
        }
        Some(po)
    }

    /// How many queued obligations claim each frame: entry `f` counts
    /// the obligations whose frame is `f`.
    pub fn frame_counts(&self, depth: usize) -> (r: Vec<usize>)
        requires
            depth < usize::MAX,
        ensures
            r@.len() == depth + 1,
    {
        let mut r: Vec<usize> = Vec::new();
        let end = depth + 1;
        for f in 0..end
            invariant
                r@.len() == f,
        {
            let mut count: usize = 0;
            let n = self.obligations.len();
            for k in 0..n
                invariant
                    n == self.obligations@.len(),
                    count <= k,
            {
                if self.obligations[k].frame == f {
                    count += 1;
                }
            }
            r.push(count);
        }
        r
    }
}

} // verus!
