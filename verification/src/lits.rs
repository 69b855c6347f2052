//! Variables and polarity-tagged literals.
//!
//! A variable is a non-negative integer identifier; variable 0 is
//! reserved for the Boolean constant. A literal packs a variable and a
//! polarity into one word: the code is `2 * var` for the positive
//! literal and `2 * var + 1` for the negative one, so negation flips
//! the low bit and ascending code order is ascending (variable,
//! negated-polarity) order.

use vstd::prelude::*;

verus! {

/// The largest variable identifier a literal can carry: its code
/// `2 * var + 1` must still fit in 32 bits.
pub const MAX_VAR: u32 = 0x7FFF_FFFE;

/// A Boolean variable, identified by a non-negative integer.
#[derive(Clone, Copy, PartialEq, Eq, Structural, Debug, Hash)]
pub struct Var {
    pub id: u32,
}

/// A literal: a variable together with a polarity, packed as
/// `2 * var + (polarity ? 0 : 1)`.
#[derive(Clone, Copy, PartialEq, Eq, Structural, Debug, Hash)]
pub struct Lit {
    pub code: u32,
}

impl Var {
    /// The variable's identifier as a mathematical integer.
    pub open spec fn spec_index(self) -> int {
        self.id as int
    }

    pub fn new(x: usize) -> (v: Var)
        requires
            x <= MAX_VAR,
        ensures
            v.id == x,
    {
        Var { id: x as u32 }
    }

    /// The positive literal of this variable.
    pub fn lit(&self) -> (l: Lit)
        requires
            self.id <= MAX_VAR,
        ensures
            l.code == 2 * self.id,
            l.spec_var() == *self,
            l.spec_polarity(),
    {
        Lit { code: self.id + self.id }
    }
}

impl Lit {
    /// The variable the literal speaks of.
    pub open spec fn spec_var(self) -> Var {
        Var { id: self.code / 2 }
    }

    /// True for the positive literal of its variable.
    pub open spec fn spec_polarity(self) -> bool {
        self.code % 2 == 0
    }

    /// The literal of the same variable with the opposite polarity.
    pub open spec fn spec_negate(self) -> Lit {
        Lit { code: (self.code ^ 1) as u32 }
    }

    pub fn new(var: Var, polarity: bool) -> (l: Lit)
        requires
            var.id <= MAX_VAR,
        ensures
            l.spec_var() == var,
            l.spec_polarity() == polarity,
            l.code == 2 * var.id + if polarity { 0int } else { 1int },
    {
        let code = if polarity {
            var.id + var.id
        } else {
            var.id + var.id + 1
        };
        Lit { code }
    }

    pub fn var(&self) -> (v: Var)
        ensures
            v == self.spec_var(),
    {
        Var { id: self.code / 2 }
    }

    pub fn polarity(&self) -> (p: bool)
        ensures
            p == self.spec_polarity(),
    {
        self.code % 2 == 0
    }

    /// Negation: flips the polarity, keeps the variable.
    pub fn negate(self) -> (l: Lit)
        ensures
            l == self.spec_negate(),
            l.spec_var() == self.spec_var(),
            l.spec_polarity() == !self.spec_polarity(),
            l.spec_negate() == self,
    {
        proof {
            lemma_negate_facts(self);
        }
        Lit { code: self.code ^ 1 }
    }

    /// The literal standing for the Boolean constant of the given
    /// polarity, on the reserved variable 0.
    pub fn constant_lit(polarity: bool) -> (l: Lit)
        ensures
            l.spec_var() == (Var { id: 0 }),
            l.spec_polarity() == !polarity,
    {
        Lit::new(Var { id: 0 }, !polarity)
    }

    /// Whether this literal is the constant literal of the given
    /// polarity.
    pub fn is_constant(&self, polarity: bool) -> (r: bool)
        ensures
            r == (self.code == if polarity { 1int } else { 0int }),
    {
        let c = Lit::constant_lit(polarity);
        self.code == c.code
    }
}

/// Negation flips the low bit of the code: variable kept, polarity
/// flipped, and doing it twice gives the literal back.
pub proof fn lemma_negate_facts(l: Lit)
    ensures
        l.spec_negate().spec_var() == l.spec_var(),
        l.spec_negate().spec_polarity() == !l.spec_polarity(),
        l.spec_negate().spec_negate() == l,
{
    let c = l.code;
    assert((c ^ 1) / 2 == c / 2 && (c ^ 1) % 2 == 1 - c % 2 && ((c ^ 1) ^ 1) == c)
        by (bit_vector);
}

} // verus!
