use ric3::{Cube, Ic3, Lit, Model, ProofObligation, ProofObligationQueue, Var};
use ric3::cube::Cnf;

fn lit(var: u32, polarity: bool) -> Lit {
    Lit::new(Var { id: var }, polarity)
}

fn cube_of(lits: &[Lit]) -> Cube {
    let mut c = Cube::new();
    for l in lits {
        c.push(*l);
    }
    c
}

/// A model with two latches (variables 1 and 2), primes 3 and 4,
/// both initially false, bad when latch 1 is true.
fn tiny_model() -> Model {
    Model {
        inputs: Vec::new(),
        latchs: vec![Var { id: 1 }, Var { id: 2 }],
        primes: vec![Var { id: 3 }, Var { id: 4 }],
        init: vec![None, Some(false), Some(false)],
        constraints: Vec::new(),
        bad: lit(1, true),
        trans: Cnf::new(),
        num_var: 5,
        next: vec![None, Some(Var { id: 3 }), Some(Var { id: 4 }), None, None],
        previous: vec![None, None, None, Some(Var { id: 1 }), Some(Var { id: 2 })],
    }
}

fn engine_with_frames(n: usize) -> Ic3 {
    let m = tiny_model();
    let bad = cube_of(&[lit(1, true)]);
    let mut e = Ic3::new(m, bad);
    for _ in 0..n {
        e.new_frame();
    }
    e
}

#[test]
fn queue_pops_smallest_frame_then_depth() {
    let mut q = ProofObligationQueue::new();
    q.add(ProofObligation::new(2, cube_of(&[lit(1, true)]), 5, None));
    q.add(ProofObligation::new(1, cube_of(&[lit(2, true)]), 9, None));
    q.add(ProofObligation::new(1, cube_of(&[lit(1, false)]), 3, None));
    let a = q.pop().unwrap();
    assert_eq!(a.frame, 1);
    assert_eq!(a.depth, 3);
    let b = q.pop().unwrap();
    assert_eq!(b.frame, 1);
    assert_eq!(b.depth, 9);
    let c = q.pop().unwrap();
    assert_eq!(c.frame, 2);
    assert!(q.pop().is_none());
}

#[test]
fn queue_add_sorts_the_cube() {
    let mut q = ProofObligationQueue::new();
    q.add(ProofObligation::new(1, cube_of(&[lit(5, true), lit(2, false)]), 0, None));
    let po = q.pop().unwrap();
    assert_eq!(po.cube.get(0), lit(2, false));
    assert_eq!(po.cube.get(1), lit(5, true));
}

#[test]
fn add_cube_removes_subsumed_cubes() {
    // A new cube removes every weaker cube at or below its frame and
    // lands at the top of its own frame.
    let mut e = engine_with_frames(3);
    let weak = cube_of(&[lit(1, true), lit(2, true)]);
    assert!(e.add_cube(1, weak).is_some());
    let strong = cube_of(&[lit(1, true)]);
    let r = e.add_cube(2, strong);
    assert!(r.is_some());
    let (begin, clause) = r.unwrap();
    assert_eq!(begin, 1);
    assert_eq!(clause.len(), 1);
    assert_eq!(clause.get(0), lit(1, false));
    // the weaker cube is gone from frame 1
    assert_eq!(e.frames.frame_len(1), 0);
    assert_eq!(e.frames.frame_len(2), 1);
    assert_eq!(*e.frames.frame_cube(2, 0), cube_of(&[lit(1, true)]));
}

#[test]
fn add_cube_redundant_when_subsumer_stands_above() {
    let mut e = engine_with_frames(3);
    let strong = cube_of(&[lit(1, true)]);
    assert!(e.add_cube(2, strong).is_some());
    // a weaker cube at a lower frame is already implied there
    let weak = cube_of(&[lit(2, true), lit(1, true)]);
    assert!(e.add_cube(2, weak).is_none());
    assert_eq!(e.frames.frame_len(2), 1);
}

#[test]
fn trivial_contained_looks_at_and_above_the_frame() {
    let mut e = engine_with_frames(3);
    let c = cube_of(&[lit(1, true)]);
    e.add_cube(2, c).unwrap();
    let probe = cube_of(&[lit(1, true), lit(2, false)]);
    assert!(e.frames.trivial_contained(1, &probe));
    assert!(e.frames.trivial_contained(2, &probe));
    assert!(!e.frames.trivial_contained(3, &probe));
}

#[test]
fn parent_of_frame_one_is_empty() {
    let e = engine_with_frames(2);
    let c = cube_of(&[lit(1, true)]);
    let parents = e.frames.parent(&c, 1);
    assert!(parents.is_empty());
}

#[test]
fn parent_returns_subsuming_cubes_of_the_frame_below() {
    let mut e = engine_with_frames(3);
    e.add_cube(1, cube_of(&[lit(1, true)])).unwrap();
    let child = cube_of(&[lit(2, false), lit(1, true)]);
    let parents = e.frames.parent(&child, 2);
    assert_eq!(parents.len(), 1);
    assert_eq!(parents[0], cube_of(&[lit(1, true)]));
    let unrelated = cube_of(&[lit(2, false)]);
    assert!(e.frames.parent(&unrelated, 2).is_empty());
}

#[test]
fn blocked_prepare_projects_to_primes() {
    let mut e = engine_with_frames(2);
    let c = cube_of(&[lit(1, true), lit(2, false)]);
    let (reset, assumption, tmp) = e.blocked_prepare(1, &c);
    assert!(!reset);
    assert_eq!(assumption.get(0), lit(3, true));
    assert_eq!(assumption.get(1), lit(4, false));
    assert_eq!(tmp.get(0), lit(1, false));
    assert_eq!(tmp.get(1), lit(2, true));
}

#[test]
fn blocked_conflict_keeps_core_literals() {
    let e = engine_with_frames(2);
    let c = cube_of(&[lit(1, true), lit(2, true)]);
    let conflict = e.blocked_conflict(&c, &vec![true, false]);
    assert_eq!(conflict, cube_of(&[lit(1, true)]));
}

#[test]
fn blocked_conflict_repairs_an_init_subsumed_core() {
    // Both latches start false. If the core keeps only literals the
    // init predicate admits, the first contradicting literal of the
    // cube is put back.
    let e = engine_with_frames(2);
    let c = cube_of(&[lit(1, false), lit(2, true)]);
    // the core names only the init-compatible literal (latch 1 at
    // false); latch 2 at true contradicts init and must reappear
    let conflict = e.blocked_conflict(&c, &vec![true, false]);
    assert_eq!(conflict, cube_of(&[lit(1, false), lit(2, true)]));
}

#[test]
fn predecessor_from_primes_maps_back_to_latches() {
    let e = engine_with_frames(1);
    let cex = e.predecessor_from_primes(&vec![true, false]);
    assert_eq!(cex, cube_of(&[lit(1, true), lit(2, false)]));
}

#[test]
fn push_fail_insert_then_get() {
    let mut e = engine_with_frames(1);
    let key = cube_of(&[lit(1, true)]);
    let cex = cube_of(&[lit(1, true), lit(2, false)]);
    assert!(e.push_fail_get(&key, 1).is_none());
    e.push_fail_insert(&key, 1, cex);
    let got = e.push_fail_get(&key, 1).unwrap();
    assert_eq!(got, cube_of(&[lit(1, true), lit(2, false)]));
    assert!(e.push_fail_get(&key, 2).is_none());
    // replacing the entry keeps one value per key
    e.push_fail_insert(&key, 1, cube_of(&[lit(2, true)]));
    assert_eq!(e.push_fail_get(&key, 1).unwrap(), cube_of(&[lit(2, true)]));
}

#[test]
fn propagate_start_clears_push_fail() {
    let mut e = engine_with_frames(3);
    e.push_fail_insert(&cube_of(&[lit(1, true)]), 1, cube_of(&[lit(2, true)]));
    assert_eq!(e.propagate_start(false), 1);
    assert!(e.push_fail_get(&cube_of(&[lit(1, true)]), 1).is_none());
    // trivial rounds restart just below the top frame
    let mut e2 = engine_with_frames(4);
    assert_eq!(e2.propagate_start(true), 2);
}

#[test]
fn frame_snapshot_sorts_by_length() {
    let mut e = engine_with_frames(2);
    e.add_cube(1, cube_of(&[lit(1, true), lit(2, true)])).unwrap();
    e.add_cube(1, cube_of(&[lit(2, false)])).unwrap();
    let snap = e.frame_snapshot_sorted(1);
    assert_eq!(snap.len(), 2);
    assert!(snap[0].len() <= snap[1].len());
    assert_eq!(snap[0], cube_of(&[lit(2, false)]));
}

#[test]
fn invariant_position_finds_first_empty_frame() {
    let mut e = engine_with_frames(3);
    e.add_cube(1, cube_of(&[lit(1, true)])).unwrap();
    // frame 0 is empty (no init cubes were added in this test)
    assert_eq!(e.invariant_position(), Some(0));
    let clauses = e.invariant_clauses(1);
    assert_eq!(clauses.len(), 1);
    assert_eq!(clauses[0].get(0), lit(1, false));
}

#[test]
fn mic_drop_candidate_removes_one_literal() {
    let e = engine_with_frames(1);
    let c = cube_of(&[lit(1, true), lit(2, false)]);
    let dropped = e.mic_drop_candidate(&c, 0);
    assert_eq!(dropped, cube_of(&[lit(2, false)]));
}

#[test]
fn singleton_cube_drop_candidate_subsumes_init() {
    // The drop loop can never remove the sole literal of a cube: the
    // empty candidate is subsumed by the init predicate, so its down
    // check reports inclusion in init before any solver is asked.
    let e = engine_with_frames(1);
    let c = cube_of(&[lit(1, true)]);
    let candidate = e.mic_drop_candidate(&c, 0);
    assert_eq!(candidate.len(), 0);
    assert!(e.model.cube_subsume_init(&candidate));
}

#[test]
fn ctg_shrink_keeps_model_literals() {
    let e = engine_with_frames(1);
    let c = cube_of(&[lit(1, true), lit(2, false)]);
    let model_cube = cube_of(&[lit(1, true)]);
    let keep = Cube::new();
    let s = e.ctg_shrink(&c, &model_cube, &keep).unwrap();
    assert_eq!(s, cube_of(&[lit(1, true)]));
    // a kept literal the model drops fails the shrink
    let keep2 = cube_of(&[lit(2, false)]);
    assert!(e.ctg_shrink(&c, &model_cube, &keep2).is_none());
}

#[test]
fn partition_by_cex_splits_shared_and_refuted() {
    let e = engine_with_frames(1);
    let c = cube_of(&[lit(1, true), lit(2, false)]);
    let cex = cube_of(&[lit(1, true), lit(2, true)]);
    let (same, diff) = e.partition_by_cex(&c, &cex);
    assert_eq!(same, cube_of(&[lit(1, true)]));
    assert_eq!(diff, cube_of(&[lit(2, false)]));
}

#[test]
fn cube_next_previous_round_trip() {
    // Mapping a latch cube to its prime image and back returns the
    // cube unchanged.
    let m = tiny_model();
    let c = cube_of(&[lit(1, true), lit(2, false)]);
    let next = m.cube_next(&c);
    assert_eq!(next, cube_of(&[lit(3, true), lit(4, false)]));
    let back = m.cube_previous(&next);
    assert_eq!(back, c);
}

#[test]
fn cube_subsume_init_checks_defined_bits() {
    let m = tiny_model();
    assert!(m.cube_subsume_init(&cube_of(&[lit(1, false), lit(2, false)])));
    assert!(!m.cube_subsume_init(&cube_of(&[lit(1, true)])));
    assert!(m.cube_subsume_init(&Cube::new()));
}

#[test]
fn solver_reset_replays_frames_and_temporaries() {
    let mut e = engine_with_frames(3);
    e.add_cube(1, cube_of(&[lit(1, true)])).unwrap();
    e.add_cube(2, cube_of(&[lit(2, true)])).unwrap();
    let clauses = e.solver_reset(1);
    // solver 1 answers for frames 1 and up: both blocking clauses
    assert_eq!(clauses.len(), 2);
    let clauses2 = e.solver_reset(2);
    assert_eq!(clauses2.len(), 1);
    assert_eq!(clauses2[0].get(0), lit(2, false));
}

#[test]
fn add_temporary_cube_subsumes_and_skips() {
    let mut e = engine_with_frames(3);
    let c = cube_of(&[lit(1, true)]);
    let (eff, clause) = e.add_temporary_cube(1, &c);
    assert_eq!(eff, 1);
    assert_eq!(clause.get(0), lit(1, false));
    // a weaker temporary cube is redundant: solver state unchanged
    let weak = cube_of(&[lit(1, true), lit(2, true)]);
    let _ = e.add_temporary_cube(1, &weak);
    let clauses = e.solver_reset(1);
    // reset replays the single stored temporary clause
    assert_eq!(clauses.len(), 1);
}

#[test]
fn lift_assumptions_and_filter() {
    let mut e = engine_with_frames(1);
    let act = lit(20, true);
    let successor = cube_of(&[lit(3, true)]);
    let latchs = cube_of(&[lit(2, false), lit(1, true)]);
    let (assumps, cls) = e.lift_assumptions(act, &successor, &Vec::new(), &latchs);
    // activation literal first, no inputs, then the latch cube
    assert_eq!(assumps.get(0), act);
    assert_eq!(assumps.get(1), lit(2, false));
    assert_eq!(assumps.get(2), lit(1, true));
    // the clause denies the successor under the activation literal
    assert_eq!(cls.get(0), lit(3, false));
    assert_eq!(cls.get(1), act.negate());
    // the core names only the first latch literal
    let kept = e.lift_filter(&latchs, &vec![true, false]);
    assert_eq!(kept, cube_of(&[lit(2, false)]));
    // the lift solver state counts its activations
    assert!(!e.lift_prepare());
    assert_eq!(e.lift.num_act, 1);
    e.lift_reset();
    assert_eq!(e.lift.num_act, 0);
}

#[test]
fn engine_obligation_flow() {
    let mut e = engine_with_frames(2);
    assert!(e.next_obligation().is_none());
    e.enqueue_obligation(ProofObligation::new(1, cube_of(&[lit(2, true), lit(1, true)]), 0, None));
    let po = e.next_obligation().unwrap();
    assert_eq!(po.frame, 1);
    // the queue sorted the cube on the way in
    assert_eq!(po.cube, cube_of(&[lit(1, true), lit(2, true)]));
    assert!(e.next_obligation().is_none());
}

#[test]
fn add_cube_at_frame_zero_loads_solver_zero() {
    let mut e = engine_with_frames(1);
    // the frame-0 cube is the negation of the init clause
    let c = cube_of(&[lit(1, false)]);
    let (begin, clause) = e.add_cube(0, c).unwrap();
    assert_eq!(begin, 0);
    assert_eq!(clause.get(0), lit(1, true));
    assert_eq!(e.frames.frame_len(0), 1);
    let replay = e.solver_reset(0);
    assert_eq!(replay.len(), 1);
    assert_eq!(replay[0].get(0), lit(1, true));
}

#[test]
fn parent_lists_subsumers_in_frame_order() {
    let mut e = engine_with_frames(3);
    e.add_cube(1, cube_of(&[lit(1, true)])).unwrap();
    e.add_cube(1, cube_of(&[lit(2, false)])).unwrap();
    let child = cube_of(&[lit(1, true), lit(2, false)]);
    let parents = e.frames.parent(&child, 2);
    assert_eq!(parents.len(), 2);
    assert_eq!(parents[0], cube_of(&[lit(1, true)]));
    assert_eq!(parents[1], cube_of(&[lit(2, false)]));
}

#[test]
fn solver_reset_lists_temporaries_before_frames() {
    let mut e = engine_with_frames(3);
    e.add_cube(1, cube_of(&[lit(1, true)])).unwrap();
    let _ = e.add_temporary_cube(1, &cube_of(&[lit(2, true)]));
    let clauses = e.solver_reset(1);
    assert_eq!(clauses.len(), 2);
    // the temporary clause comes first, the frame clause after
    assert_eq!(clauses[0].get(0), lit(2, false));
    assert_eq!(clauses[1].get(0), lit(1, false));
}

#[test]
fn blocked_conflict_empty_core_repairs_to_one_literal() {
    // an empty core picks nothing; the repair re-adds exactly the
    // first literal that contradicts the init predicate
    let e = engine_with_frames(2);
    let c = cube_of(&[lit(1, false), lit(2, true)]);
    let conflict = e.blocked_conflict(&c, &vec![false, false]);
    assert_eq!(conflict, cube_of(&[lit(2, true)]));
}
