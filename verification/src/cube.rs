//! Cubes, clauses, and their conjunctive / disjunctive collections.
//!
//! A cube is a conjunction of literals, a clause a disjunction; both
//! are flat literal sequences. Negating one yields the other, literal
//! by literal. When cubes live in frames or serve as assumption sets
//! they are kept sorted ascending by variable, which makes subsumption
//! a subsequence walk.

use crate::lits::{lemma_negate_facts, Lit, Var};
use vstd::prelude::*;

verus! {

/// Pointwise negation of a literal sequence.
pub open spec fn seq_negate(s: Seq<Lit>) -> Seq<Lit> {
    s.map_values(|l: Lit| l.spec_negate())
}

/// Every literal of `a` occurs in `b` (set inclusion on the literal
/// sets; order and multiplicity play no part).
pub open spec fn lits_subset(a: Seq<Lit>, b: Seq<Lit>) -> bool {
    forall|i: int| 0 <= i < a.len() ==> b.contains(#[trigger] a[i])
}

/// Literal codes strictly increase along the sequence; since the code
/// is `2 * var + bit`, the variables strictly increase as well and no
/// variable occurs twice.
pub open spec fn strictly_sorted(s: Seq<Lit>) -> bool {
    forall|i: int, j: int| 0 <= i < j < s.len() ==> s[i].code < s[j].code
}

/// Literal codes never decrease along the sequence.
pub open spec fn sorted_by_code(s: Seq<Lit>) -> bool {
    forall|i: int, j: int| 0 <= i < j < s.len() ==> s[i].code <= s[j].code
}

/// No variable occurs twice in the sequence.
pub open spec fn distinct_vars(s: Seq<Lit>) -> bool {
    forall|i: int, j: int|
        0 <= i < j < s.len() ==> s[i].spec_var().id != s[j].spec_var().id
}

/// Double negation gives the sequence back: negating a cube yields a
/// clause and negating that clause yields the original cube, and the
/// same both ways round.
pub proof fn lemma_seq_negate_involutive(s: Seq<Lit>)
    ensures
        seq_negate(seq_negate(s)) == s,
{
    assert forall|i: int| 0 <= i < s.len() implies seq_negate(seq_negate(s))[i] == s[i] by {
        lemma_negate_facts(s[i]);
    }
    assert(seq_negate(seq_negate(s)) =~= s);
}

/// A sequence sorted without repetition of codes is sorted by
/// variable and mentions each variable once.
pub proof fn lemma_strictly_sorted_distinct(s: Seq<Lit>)
    requires
        sorted_by_code(s),
        distinct_vars(s),
    ensures
        strictly_sorted(s),
{
    assert forall|i: int, j: int| 0 <= i < j < s.len() implies s[i].code < s[j].code by {
        assert(s[i].code <= s[j].code);
        assert(s[i].code / 2 != s[j].code / 2);
    }
}


/// Subsequence containment, decided greedily: each literal of `a`
/// must be matched, in order, by a literal of `b`.
pub open spec fn is_subsequence(a: Seq<Lit>, b: Seq<Lit>) -> bool
    decreases b.len(),
{
    if a.len() == 0 {
        true
    } else if b.len() == 0 {
        false
    } else if a[0] == b[0] {
        is_subsequence(a.skip(1), b.skip(1))
    } else {
        is_subsequence(a, b.skip(1))
    }
}

/// A subsequence is in particular a subset: ordered subsumption
/// implies unordered subsumption, whatever the order of the inputs.
pub proof fn lemma_subsequence_implies_subset(a: Seq<Lit>, b: Seq<Lit>)
    requires
        is_subsequence(a, b),
    ensures
        lits_subset(a, b),
    decreases b.len(),
{
    if a.len() == 0 {
    } else if b.len() == 0 {
    } else if a[0] == b[0] {
        lemma_subsequence_implies_subset(a.skip(1), b.skip(1));
        assert forall|i: int| 0 <= i < a.len() implies b.contains(#[trigger] a[i]) by {
            if i == 0 {
                assert(b[0] == a[0]);
            } else {
                assert(b.skip(1).contains(a.skip(1)[i - 1]));
                let k = choose|k: int| 0 <= k < b.skip(1).len() && b.skip(1)[k] == a.skip(1)[i
                    - 1];
                assert(b[k + 1] == a[i]);
            }
        }
    } else {
        lemma_subsequence_implies_subset(a, b.skip(1));
        assert forall|i: int| 0 <= i < a.len() implies b.contains(#[trigger] a[i]) by {
            assert(b.skip(1).contains(a[i]));
            let k = choose|k: int| 0 <= k < b.skip(1).len() && b.skip(1)[k] == a[i];
            assert(b[k + 1] == a[i]);
        }
    }
}

/// The converse holds on sorted inputs: a subset of a variable-sorted
/// cube, itself variable-sorted, is a subsequence of it.
pub proof fn lemma_sorted_subset_implies_subsequence(a: Seq<Lit>, b: Seq<Lit>)
    requires
        strictly_sorted(a),
        strictly_sorted(b),
        lits_subset(a, b),
    ensures
        is_subsequence(a, b),
    decreases b.len(),
{
    if a.len() == 0 {
    } else {
        assert(b.contains(a[0]));
        let k0 = choose|k: int| 0 <= k < b.len() && b[k] == a[0];
        if a[0] == b[0] {
            assert forall|i: int|
                0 <= i < a.skip(1).len() implies b.skip(1).contains(
                #[trigger] a.skip(1)[i],
            ) by {
                assert(a.skip(1)[i] == a[i + 1]);
                assert(b.contains(a[i + 1]));
                let k = choose|k: int| 0 <= k < b.len() && b[k] == a[i + 1];
                assert(a[i + 1].code > a[0].code);
                assert(k != 0);
                assert(b.skip(1)[k - 1] == a[i + 1]);
            }
            lemma_sorted_subset_implies_subsequence(a.skip(1), b.skip(1));
        } else {
            assert(k0 != 0);
            assert(a[0].code == b[k0].code > b[0].code);
            assert forall|i: int| 0 <= i < a.len() implies b.skip(1).contains(
                #[trigger] a[i],
            ) by {
                assert(b.contains(a[i]));
                let k = choose|k: int| 0 <= k < b.len() && b[k] == a[i];
                assert(a[i].code >= a[0].code > b[0].code);
                assert(k != 0);
                assert(b.skip(1)[k - 1] == a[i]);
            }
            lemma_sorted_subset_implies_subsequence(a, b.skip(1));
        }
    }
}


/// Reordering a cube cannot introduce a repeated variable: any
/// permutation of a duplicate-free, variable-distinct literal
/// sequence is variable-distinct too.
pub proof fn lemma_distinct_vars_permutation(a: Seq<Lit>, b: Seq<Lit>)
    requires
        a.to_multiset() == b.to_multiset(),
        distinct_vars(a),
    ensures
        distinct_vars(b),
{
    broadcast use vstd::seq_lib::group_to_multiset_ensures;

    assert(a.no_duplicates()) by {
        assert forall|i: int, j: int|
            0 <= i < a.len() && 0 <= j < a.len() && i != j implies a[i] != a[j] by {
            if i < j {
                assert(a[i].spec_var().id != a[j].spec_var().id);
            } else {
                assert(a[j].spec_var().id != a[i].spec_var().id);
            }
        }
    }
    a.lemma_multiset_has_no_duplicates();
    b.lemma_multiset_has_no_duplicates_conv();
    assert forall|i: int, j: int|
        0 <= i < j < b.len() implies b[i].spec_var().id != b[j].spec_var().id by {
        assert(b.contains(b[i]) && b.contains(b[j]));
        assert(b.to_multiset().count(b[i]) > 0 && b.to_multiset().count(b[j]) > 0);
        assert(a.contains(b[i]) && a.contains(b[j]));
        let p = choose|p: int| 0 <= p < a.len() && a[p] == b[i];
        let q = choose|q: int| 0 <= q < a.len() && a[q] == b[j];
        assert(b[i] != b[j]);
        assert(p != q);
        if p < q {
            assert(a[p].spec_var().id != a[q].spec_var().id);
        } else {
            assert(a[q].spec_var().id != a[p].spec_var().id);
        }
    }
}


/// Distinct literals drawn from a variable-distinct cube keep their
/// variables distinct.
pub proof fn lemma_distinct_vars_subset(a: Seq<Lit>, b: Seq<Lit>)
    requires
        lits_subset(a, b),
        distinct_vars(b),
        forall|i: int, j: int| 0 <= i < j < a.len() ==> a[i] != a[j],
    ensures
        distinct_vars(a),
{
    assert forall|i: int, j: int|
        0 <= i < j < a.len() implies a[i].spec_var().id != a[j].spec_var().id by {
        assert(b.contains(a[i]) && b.contains(a[j]));
        let p = choose|p: int| 0 <= p < b.len() && b[p] == a[i];
        let q = choose|q: int| 0 <= q < b.len() && b[q] == a[j];
        assert(p != q);
        if p < q {
            assert(b[p].spec_var().id != b[q].spec_var().id);
        } else {
            assert(b[q].spec_var().id != b[p].spec_var().id);
        }
    }
}

/// A conjunction of literals.
#[derive(Clone, Debug)]
pub struct Cube {
    pub lits: Vec<Lit>,
}

/// A disjunction of literals.
#[derive(Clone, Debug)]
pub struct Clause {
    pub lits: Vec<Lit>,
}

impl View for Cube {
    type V = Seq<Lit>;

    open spec fn view(&self) -> Seq<Lit> {
        self.lits@
    }
}

impl View for Clause {
    type V = Seq<Lit>;

    open spec fn view(&self) -> Seq<Lit> {
        self.lits@
    }
}

impl PartialEq for Cube {
    fn eq(&self, other: &Cube) -> (r: bool) {
        lits_eq(&self.lits, &other.lits)
    }
}

impl Eq for Cube {}

impl vstd::std_specs::cmp::PartialEqSpecImpl for Cube {
    open spec fn obeys_eq_spec() -> bool {
        true
    }

    open spec fn eq_spec(&self, other: &Cube) -> bool {
        self.lits@ == other.lits@
    }
}

/// Literal-by-literal equality of two literal vectors.
fn lits_eq(a: &Vec<Lit>, b: &Vec<Lit>) -> (r: bool)
    ensures
        r <==> a@ == b@,
{
    if a.len() != b.len() {
        assert(a@ != b@);
        return false;
    }
    let n = a.len();
    for i in 0..n
        invariant
            n == a.len() == b.len(),
            forall|k: int| 0 <= k < i ==> a@[k] == b@[k],
    {
        if a[i].code != b[i].code {
            return false;
        }
    }
    proof {
        assert(a@ =~= b@);
    }
    true
}

impl Cube {
    pub fn new() -> (c: Cube)
        ensures
            c@ =~= Seq::<Lit>::empty(),
    {
        Cube { lits: Vec::new() }
    }

    pub fn len(&self) -> (n: usize)
        ensures
            n == self@.len(),
    {
        self.lits.len()
    }

    pub fn is_empty(&self) -> (r: bool)
        ensures
            r == (self@.len() == 0),
    {
        self.lits.len() == 0
    }

    pub fn push(&mut self, l: Lit)
        ensures
            final(self)@ == old(self)@.push(l),
    {
        self.lits.push(l);
    }

    pub fn get(&self, i: usize) -> (l: Lit)
        requires
            i < self@.len(),
        ensures
            l == self@[i as int],
    {
        self.lits[i]
    }

    /// Negation as a container: a cube denies a state, its negation
    /// is the clause that blocks it.
    pub fn negate(&self) -> (r: Clause)
        ensures
            r@ == seq_negate(self@),
            seq_negate(r@) == self@,
    {
        proof {
            lemma_seq_negate_involutive(self@);
        }
        Clause { lits: negate_lits(&self.lits) }
    }

    /// Whether the literal occurs in the cube.
    pub fn contains(&self, l: Lit) -> (r: bool)
        ensures
            r == self@.contains(l),
    {
        contains_lit(&self.lits, l)
    }
}

impl Clause {
    pub fn new() -> (c: Clause)
        ensures
            c@ =~= Seq::<Lit>::empty(),
    {
        Clause { lits: Vec::new() }
    }

    pub fn len(&self) -> (n: usize)
        ensures
            n == self@.len(),
    {
        self.lits.len()
    }

    pub fn push(&mut self, l: Lit)
        ensures
            final(self)@ == old(self)@.push(l),
    {
        self.lits.push(l);
    }

    pub fn get(&self, i: usize) -> (l: Lit)
        requires
            i < self@.len(),
        ensures
            l == self@[i as int],
    {
        self.lits[i]
    }

    /// An element-by-element copy.
    pub fn duplicate(&self) -> (r: Clause)
        ensures
            r@ == self@,
    {
        let mut lits: Vec<Lit> = Vec::new();
        let n = self.lits.len();
        for i in 0..n
            invariant
                n == self.lits.len(),
                lits@ =~= self.lits@.subrange(0, i as int),
        {
            lits.push(self.lits[i]);
        }
        proof {
            assert(lits@ =~= self@);
        }
        Clause { lits }
    }

    /// Negation as a container: back from the blocking clause to the
    /// cube it denies.
    pub fn negate(&self) -> (r: Cube)
        ensures
            r@ == seq_negate(self@),
            seq_negate(r@) == self@,
    {
        proof {
            lemma_seq_negate_involutive(self@);
        }
        Cube { lits: negate_lits(&self.lits) }
    }
}


impl Cube {
    /// An element-by-element copy.
    pub fn duplicate(&self) -> (r: Cube)
        ensures
            r@ == self@,
    {
        let mut lits: Vec<Lit> = Vec::new();
        let n = self.lits.len();
        for i in 0..n
            invariant
                n == self.lits.len(),
                lits@ =~= self.lits@.subrange(0, i as int),
        {
            lits.push(self.lits[i]);
        }
        proof {
            assert(lits@ =~= self@);
        }
        Cube { lits }
    }

    /// Unordered subsumption: every literal of this cube occurs in
    /// the other, by a set check.
    pub fn subsume(&self, other: &Cube) -> (r: bool)
        ensures
            r == lits_subset(self@, other@),
    {
        let n = self.lits.len();
        for i in 0..n
            invariant
                n == self.lits.len(),
                forall|k: int| 0 <= k < i ==> other@.contains(#[trigger] self@[k]),
        {
            if !other.contains(self.lits[i]) {
                return false;
            }
        }
        true
    }

    /// Ordered subsumption: one walk over both cubes. On
    /// variable-sorted cubes it decides exactly the subset relation,
    /// and so subsequence containment.
    pub fn ordered_subsume(&self, other: &Cube) -> (r: bool)
        requires
            strictly_sorted(self@),
            strictly_sorted(other@),
        ensures
            r == lits_subset(self@, other@),
            r == is_subsequence(self@, other@),
    {
        let n = self.lits.len();
        let m = other.lits.len();
        let mut j: usize = 0;
        let mut i: usize = 0;
        while i < n
            invariant
                n == self.lits.len(),
                m == other.lits.len(),
                strictly_sorted(self@),
                strictly_sorted(other@),
                0 <= i <= n,
                0 <= j <= m,
                forall|k: int| 0 <= k < i ==> other@.contains(#[trigger] self@[k]),
                i < n ==> forall|k: int| 0 <= k < j ==> other@[k].code < self@[i as int].code,
            decreases n - i,
        {
            while j < m && self.lits[i].code > other.lits[j].code
                invariant
                    n == self.lits.len(),
                    m == other.lits.len(),
                    i < n,
                    0 <= j <= m,
                    forall|k: int| 0 <= k < j ==> other@[k].code < self@[i as int].code,
                decreases m - j,
            {
                j += 1;
            }
            if j == m {
                proof {
                    assert(!other@.contains(self@[i as int])) by {
                        assert forall|k: int| 0 <= k < m implies other@[k] != self@[i as int] by {
                            assert(other@[k].code < self@[i as int].code);
                        }
                    }
                    if is_subsequence(self@, other@) {
                        lemma_subsequence_implies_subset(self@, other@);
                    }
                }
                return false;
            }
            if self.lits[i].code != other.lits[j].code {
                proof {
                    assert(!other@.contains(self@[i as int])) by {
                        assert forall|k: int| 0 <= k < m implies other@[k] != self@[i as int] by {
                            if k < j {
                                assert(other@[k].code < self@[i as int].code);
                            } else if k > j {
                                assert(other@[k].code > other@[j as int].code);
                                assert(other@[j as int].code >= self@[i as int].code);
                            }
                        }
                    }
                    if is_subsequence(self@, other@) {
                        lemma_subsequence_implies_subset(self@, other@);
                    }
                }
                return false;
            }
            assert(other@[j as int] == self@[i as int]);
            assert(other@.contains(self@[i as int]));
            i += 1;
        }
        proof {
            lemma_sorted_subset_implies_subsequence(self@, other@);
        }
        true
    }

    /// The literals common to both cubes, in the order they stand in
    /// this cube.
    pub fn intersection(&self, other: &Cube) -> (r: Cube)
        ensures
            forall|l: Lit| r@.contains(l) <==> (self@.contains(l) && other@.contains(l)),
            forall|a: int, b: int| 0 <= a < b < r@.len() ==> r@[a] != r@[b],
    {
        let mut lits: Vec<Lit> = Vec::new();
        let n = self.lits.len();
        for i in 0..n
            invariant
                n == self.lits.len(),
                forall|l: Lit|
                    #[trigger] lits@.contains(l) ==> (self@.contains(l) && other@.contains(l)),
                forall|k: int|
                    0 <= k < i && other@.contains(#[trigger] self@[k]) ==> lits@.contains(
                        self@[k]),
                forall|a: int, b: int| 0 <= a < b < lits@.len() ==> lits@[a] != lits@[b],
        {
            let l = self.lits[i];
            let ghost prev = lits@;
            if other.contains(l) && !contains_lit(&lits, l) {
                lits.push(l);
                proof {
                    assert(lits@ == prev.push(l));
                    assert(lits@[prev.len() as int] == l);
                    assert forall|x: Lit| #[trigger] lits@.contains(x) implies (self@.contains(x)
                        && other@.contains(x)) by {
                        let k = choose|k: int| 0 <= k < lits@.len() && lits@[k] == x;
                        if k < prev.len() {
                            assert(prev[k] == x);
                            assert(prev.contains(x));
                        } else {
                            assert(x == l);
                            assert(self@[i as int] == l);
                        }
                    }
                    assert forall|k: int|
                        0 <= k < i + 1 && other@.contains(#[trigger] self@[k]) implies
                        lits@.contains(self@[k]) by {
                        if k < i {
                            assert(prev.contains(self@[k]));
                            let m = choose|m: int| 0 <= m < prev.len() && prev[m] == self@[k];
                            assert(lits@[m] == self@[k]);
                        } else {
                            assert(lits@[prev.len() as int] == self@[k]);
                        }
                    }
                    assert forall|a: int, b: int|
                        0 <= a < b < lits@.len() implies lits@[a] != lits@[b] by {
                        if b == prev.len() {
                            assert(prev[a] == lits@[a]);
                            assert(prev.contains(prev[a]));
                        }
                    }
                }
            } else {
                proof {
                    assert forall|k: int|
                        0 <= k < i + 1 && other@.contains(#[trigger] self@[k]) implies
                        lits@.contains(self@[k]) by {
                        if k == i && other@.contains(self@[k]) {
                            assert(self@[i as int] == l);
                            assert(lits@.contains(l));
                        }
                    }
                }
            }
        }
        proof {
            assert forall|l: Lit| self@.contains(l) && other@.contains(l) implies lits@.contains(
                l) by {
                let k = choose|k: int| 0 <= k < self@.len() && self@[k] == l;
                assert(other@.contains(self@[k]));
            }
        }
        Cube { lits }
    }

    /// Sorts the cube ascending by literal code, and so by variable:
    /// the same literals, in canonical order.
    pub fn sort_by_var(&mut self)
        ensures
            final(self)@.to_multiset() == old(self)@.to_multiset(),
            final(self)@.len() == old(self)@.len(),
            sorted_by_code(final(self)@),
            forall|l: Lit| final(self)@.contains(l) <==> old(self)@.contains(l),
    {
        sort_lits(&mut self.lits);
    }
}

/// Insertion sort on a literal vector, ascending by code.
fn sort_lits(lits: &mut Vec<Lit>) -> (r: ())
    ensures
        final(lits)@.to_multiset() == old(lits)@.to_multiset(),
        final(lits)@.len() == old(lits)@.len(),
        sorted_by_code(final(lits)@),
        forall|l: Lit| final(lits)@.contains(l) <==> old(lits)@.contains(l),
{
    broadcast use vstd::seq_lib::group_to_multiset_ensures;

    let n = lits.len();
    if n == 0 {
        return ;
    }
    let mut i: usize = 1;
    while i < n
        invariant
            n == lits.len(),
            1 <= i <= n,
            lits@.to_multiset() == old(lits)@.to_multiset(),
            sorted_by_code(lits@.subrange(0, i as int)),
        decreases n - i,
    {
        let mut j: usize = i;
        proof {
            assert forall|a: int, b: int|
                0 <= a < b <= i && b != j implies lits@[a].code <= lits@[b].code by {
                assert(lits@.subrange(0, i as int)[a] == lits@[a]);
                assert(lits@.subrange(0, i as int)[b] == lits@[b]);
            }
        }
        while j > 0 && lits[j - 1].code > lits[j].code
            invariant
                n == lits.len(),
                0 <= j <= i < n,
                lits@.to_multiset() == old(lits)@.to_multiset(),
                forall|a: int, b: int|
                    0 <= a < b <= i && b != j ==> lits@[a].code <= lits@[b].code,
            decreases j,
        {
            let x = lits[j - 1];
            let y = lits[j];
            let ghost before = lits@;
            lits.set(j - 1, y);
            lits.set(j, x);
            proof {
                assert(lits@ =~= before.update(j - 1, y).update(j as int, x));
                vstd::seq_lib::to_multiset_update(before, j - 1, y);
                vstd::seq_lib::to_multiset_update(before.update(j - 1, y), j as int, x);
                assert(before[j - 1] == x);
                assert(before.update(j - 1, y)[j as int] == y);
                assert(before.contains(x));
                vstd::seq_lib::to_multiset_contains(before, x);
                assert(before.to_multiset().count(x) > 0);
                assert(before.to_multiset().insert(y).count(x) > 0);
                assert(before.to_multiset().insert(y).remove(x).insert(x).count(y) > 0);
                assert(lits@.to_multiset() =~= before.to_multiset());
            }
            j -= 1;
        }
        proof {
            assert forall|a: int, b: int| 0 <= a < b <= i implies lits@[a].code
                <= lits@[b].code by {
                if b == j {
                    if j > 0 {
                        assert(lits@[j - 1].code <= lits@[j as int].code);
                        if a < j - 1 {
                            assert(lits@[a].code <= lits@[j - 1].code);
                        }
                    }
                }
            }
            assert(sorted_by_code(lits@.subrange(0, i + 1 as int)));
        }
        i += 1;
    }
    proof {
        assert(lits@.subrange(0, n as int) =~= lits@);
        assert forall|l: Lit| lits@.contains(l) <==> old(lits)@.contains(l) by {
            assert(lits@.to_multiset().count(l) == old(lits)@.to_multiset().count(l));
        }
        assert(lits@.len() == lits@.to_multiset().len());
        assert(old(lits)@.len() == old(lits)@.to_multiset().len());
    }
}

fn negate_lits(lits: &Vec<Lit>) -> (r: Vec<Lit>)
    ensures
        r@ == seq_negate(lits@),
{
    let mut r: Vec<Lit> = Vec::new();
    let n = lits.len();
    for i in 0..n
        invariant
            n == lits.len(),
            r@.len() == i,
            forall|k: int| 0 <= k < i ==> r@[k] == lits@[k].spec_negate(),
    {
        r.push(lits[i].negate());
    }
    proof {
        assert(r@ =~= seq_negate(lits@));
    }
    r
}

fn contains_lit(lits: &Vec<Lit>, l: Lit) -> (r: bool)
    ensures
        r == lits@.contains(l),
{
    let n = lits.len();
    for i in 0..n
        invariant
            n == lits.len(),
            forall|k: int| 0 <= k < i ==> lits@[k] != l,
    {
        if lits[i].code == l.code {
            assert(lits@[i as int] == l);
            return true;
        }
    }
    false
}


/// A conjunction of clauses.
#[derive(Clone, Debug)]
pub struct Cnf {
    pub clauses: Vec<Clause>,
}

impl View for Cnf {
    type V = Seq<Seq<Lit>>;

    open spec fn view(&self) -> Seq<Seq<Lit>> {
        self.clauses@.map_values(|c: Clause| c@)
    }
}

impl Cnf {
    pub fn new() -> (r: Cnf)
        ensures
            r@ =~= Seq::<Seq<Lit>>::empty(),
    {
        Cnf { clauses: Vec::new() }
    }

    pub fn len(&self) -> (n: usize)
        ensures
            n == self@.len(),
    {
        self.clauses.len()
    }

    pub fn get(&self, i: usize) -> (c: &Clause)
        requires
            i < self@.len(),
        ensures
            c@ == self@[i as int],
    {
        &self.clauses[i]
    }

    pub fn add_clause(&mut self, clause: Clause)
        ensures
            final(self)@ == old(self)@.push(clause@),
    {
        let ghost c = clause@;
        self.clauses.push(clause);
        proof {
            assert(final(self)@ =~= old(self)@.push(c));
        }
    }
}

/// A disjunction of cubes.
#[derive(Clone, Debug)]
pub struct Dnf {
    pub cubes: Vec<Cube>,
}

impl View for Dnf {
    type V = Seq<Seq<Lit>>;

    open spec fn view(&self) -> Seq<Seq<Lit>> {
        self.cubes@.map_values(|c: Cube| c@)
    }
}

impl Dnf {
    pub fn new() -> (r: Dnf)
        ensures
            r@ =~= Seq::<Seq<Lit>>::empty(),
    {
        Dnf { cubes: Vec::new() }
    }

    pub fn len(&self) -> (n: usize)
        ensures
            n == self@.len(),
    {
        self.cubes.len()
    }

    pub fn get(&self, i: usize) -> (c: &Cube)
        requires
            i < self@.len(),
        ensures
            c@ == self@[i as int],
    {
        &self.cubes[i]
    }

    pub fn add_cube(&mut self, cube: Cube)
        ensures
            final(self)@ == old(self)@.push(cube@),
    {
        let ghost c = cube@;
        self.cubes.push(cube);
        proof {
            assert(final(self)@ =~= old(self)@.push(c));
        }
    }

    /// De Morgan as a container step: the negation of a disjunction
    /// of cubes is the conjunction of their negated clauses.
    pub fn negate(&self) -> (r: Cnf)
        ensures
            r@.len() == self@.len(),
            forall|i: int| 0 <= i < self@.len() ==> r@[i] == seq_negate(self@[i]),
    {
        let mut cnf = Cnf::new();
        let n = self.cubes.len();
        for i in 0..n
            invariant
                n == self.cubes.len(),
                cnf@.len() == i,
                forall|k: int| 0 <= k < i ==> cnf@[k] == seq_negate(self@[k]),
        {
            cnf.add_clause(self.cubes[i].negate());
        }
        cnf
    }
}

} // verus!
