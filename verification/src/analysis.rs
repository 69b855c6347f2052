//! Offline analysis of a derived invariant.
//!
//! Filters an invariant's cubes against a chosen variable set: a
//! cube survives when it assigns every chosen variable, and its
//! literals are reordered so the chosen variables come first.

use crate::cube::Cube;
use crate::lits::{Lit, Var, MAX_VAR};
use vstd::prelude::*;

verus! {

/// The positive literal of a variable.
pub open spec fn pos_lit(v: Var) -> Lit {
    Lit { code: (2 * v.id) as u32 }
}

/// The negative literal of a variable.
pub open spec fn neg_lit(v: Var) -> Lit {
    Lit { code: (2 * v.id + 1) as u32 }
}

/// The chosen-variable prefix of a filtered cube: for each chosen
/// variable in turn, the literal of it the cube holds, the positive
/// one preferred; nothing when some variable is not assigned.
pub open spec fn selected_lits(c: Seq<Lit>, f: Seq<Var>) -> Option<Seq<Lit>>
    decreases f.len(),
{
    if f.len() == 0 {
        Some(Seq::empty())
    } else {
        match selected_lits(c, f.drop_last()) {
            None => None,
            Some(s) => {
                let v = f.last();
                if c.contains(pos_lit(v)) {
                    Some(s.push(pos_lit(v)))
                } else if c.contains(neg_lit(v)) {
                    Some(s.push(neg_lit(v)))
                } else {
                    None
                }
            },
        }
    }
}

/// Whether the variable list holds the variable.
pub open spec fn vars_contain(f: Seq<Var>, v: Var) -> bool {
    exists|k: int| 0 <= k < f.len() && (#[trigger] f[k]).id == v.id
}

/// The literals of a cube whose variables are not chosen, in cube
/// order.
pub open spec fn unselected_lits(c: Seq<Lit>, f: Seq<Var>) -> Seq<Lit>
    decreases c.len(),
{
    if c.len() == 0 {
        Seq::empty()
    } else {
        let rest = unselected_lits(c.drop_last(), f);
        if vars_contain(f, c.last().spec_var()) {
            rest
        } else {
            rest.push(c.last())
        }
    }
}

/// The filtered form of one cube, if it assigns every chosen
/// variable.
pub open spec fn filter_one(c: Seq<Lit>, f: Seq<Var>) -> Option<Seq<Lit>> {
    match selected_lits(c, f) {
        None => None,
        Some(s) => Some(s + unselected_lits(c, f)),
    }
}

/// The filtered forms of the cubes that assign every chosen
/// variable, in their original order.
pub open spec fn filter_spec(inv: Seq<Cube>, f: Seq<Var>) -> Seq<Seq<Lit>>
    decreases inv.len(),
{
    if inv.len() == 0 {
        Seq::empty()
    } else {
        let rest = filter_spec(inv.drop_last(), f);
        match filter_one(inv.last()@, f) {
            None => rest,
            Some(s) => rest.push(s),
        }
    }
}

/// Keeps the invariant cubes that assign every chosen variable,
/// each reordered so the chosen variables' literals come first.
pub fn filter(inv: Vec<Cube>, f: &Vec<Var>) -> (r: Vec<Cube>)
    requires
        forall|k: int| 0 <= k < f@.len() ==> (#[trigger] f@[k]).id <= MAX_VAR,
    ensures
        r@.len() == filter_spec(inv@, f@).len(),
        forall|k: int|
            0 <= k < r@.len() ==> (#[trigger] r@[k])@ == filter_spec(inv@, f@)[k],
{
    let mut ans: Vec<Cube> = Vec::new();
    let n = inv.len();
    for i in 0..n
        invariant
            n == inv@.len(),
            forall|k: int| 0 <= k < f@.len() ==> (#[trigger] f@[k]).id <= MAX_VAR,
            ans@.len() == filter_spec(inv@.subrange(0, i as int), f@).len(),
            forall|k: int|
                0 <= k < ans@.len() ==> (#[trigger] ans@[k])@ == filter_spec(
                    inv@.subrange(0, i as int),
                    f@,
                )[k],
    {
        let ghost sub = inv@.subrange(0, i + 1);
        proof {
            assert(sub.drop_last() =~= inv@.subrange(0, i as int));
            assert(sub.last() == inv@[i as int]);
        }
        let c = &inv[i];
        let mut a = Cube::new();
        let mut sat = true;
        let nf = f.len();
        for k in 0..nf
            invariant
                nf == f@.len(),
                forall|q: int| 0 <= q < f@.len() ==> (#[trigger] f@[q]).id <= MAX_VAR,
                c == &inv@[i as int],
                i < n == inv@.len(),
                sat ==> Some(a@) == selected_lits(c@, f@.subrange(0, k as int)),
                !sat ==> selected_lits(c@, f@) is None,
        {
            if sat {
                let ghost fsub = f@.subrange(0, k + 1);
                proof {
                    assert(fsub.drop_last() =~= f@.subrange(0, k as int));
                    assert(fsub.last() == f@[k as int]);
                }
                let fl = f[k].lit();
                proof {
                    assert(fl == pos_lit(f@[k as int]));
                    assert(fl.spec_negate() == neg_lit(f@[k as int])) by {
                        crate::lits::lemma_negate_facts(fl);
                        let nc = fl.spec_negate().code;
                        assert(nc / 2 == f@[k as int].id && nc % 2 == 1);
                        assert(nc == 2 * (nc / 2) + nc % 2);
                    }
                }
                if c.contains(fl) {
                    a.push(fl);
                    proof {
                        assert(Some(a@) == selected_lits(c@, fsub));
                    }
                } else if c.contains(fl.negate()) {
                    a.push(fl.negate());
                    proof {
                        assert(Some(a@) == selected_lits(c@, fsub));
                    }
                } else {
                    sat = false;
                    proof {
                        assert(selected_lits(c@, fsub) is None);
                        lemma_selected_extend(c@, fsub, f@);
                    }
                }
            }
        }
        proof {
            if sat {
                assert(f@.subrange(0, nf as int) =~= f@);
            }
        }
        if sat {
            let m = c.len();
            let ghost selected = a@;
            for j in 0..m
                invariant
                    m == c@.len(),
                    c == &inv@[i as int],
                    i < n == inv@.len(),
                    nf == f@.len(),
                    a@ == selected + unselected_lits(c@.subrange(0, j as int), f@),
            {
                let ghost csub = c@.subrange(0, j + 1);
                proof {
                    assert(csub.drop_last() =~= c@.subrange(0, j as int));
                    assert(csub.last() == c@[j as int]);
                }
                let cl = c.get(j);
                let clv = cl.var();
                let mut found = false;
                for k in 0..nf
                    invariant
                        nf == f@.len(),
                        found ==> vars_contain(f@, clv),
                        !found ==> forall|q: int| 0 <= q < k ==> (#[trigger] f@[q]).id
                            != clv.id,
                {
                    if f[k].id == clv.id {
                        found = true;
                    }
                }
                if !found {
                    a.push(cl);
                    proof {
                        assert(!vars_contain(f@, c@[j as int].spec_var()));
                        assert(a@ =~= selected + unselected_lits(csub, f@));
                    }
                } else {
                    proof {
                        assert(vars_contain(f@, c@[j as int].spec_var()));
                        assert(a@ =~= selected + unselected_lits(csub, f@));
                    }
                }
            }
            proof {
                assert(c@.subrange(0, m as int) =~= c@);
                assert(a@ == filter_one(c@, f@)->Some_0);
            }
            let ghost prev = ans@;
            ans.push(a);
            proof {
                assert(filter_spec(sub, f@) == filter_spec(
                    inv@.subrange(0, i as int),
                    f@,
                ).push(filter_one(inv@[i as int]@, f@)->Some_0));
                assert forall|k: int|
                    0 <= k < ans@.len() implies (#[trigger] ans@[k])@ == filter_spec(
                    sub,
                    f@,
                )[k] by {
                    if k < prev.len() {
                        assert(ans@[k] == prev[k]);
                    }
                }
            }
        } else {
            proof {
                assert(filter_one(inv@[i as int]@, f@) is None);
                assert(filter_spec(sub, f@) == filter_spec(inv@.subrange(0, i as int), f@));
            }
        }
    }
    proof {
        assert(inv@.subrange(0, n as int) =~= inv@);
    }
    ans
}

/// A selection that fails on a prefix of the variable list fails on
/// the whole list.
proof fn lemma_selected_extend(c: Seq<Lit>, sub: Seq<Var>, f: Seq<Var>)
    requires
        selected_lits(c, sub) is None,
        sub.is_prefix_of(f),
    ensures
        selected_lits(c, f) is None,
    decreases f.len(),
{
    if sub.len() == f.len() {
        assert(sub =~= f);
    } else {
        lemma_selected_extend(c, sub, f.drop_last());
        assert(sub.is_prefix_of(f.drop_last()));
    }
}

} // verus!
