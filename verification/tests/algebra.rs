use ric3::{Clause, Cube, Lit, Var};

fn lit(var: u32, polarity: bool) -> Lit {
    Lit::new(Var { id: var }, polarity)
}

fn cube_of(lits: &[Lit]) -> Cube {
    let mut c = Cube::new();
    for l in lits {
        c.push(*l);
    }
    c
}

#[test]
fn lit_encoding() {
    let l = lit(5, true);
    assert_eq!(l.var().id, 5);
    assert!(l.polarity());
    assert_eq!(l.code, 10);
    let n = lit(5, false);
    assert_eq!(n.code, 11);
    assert_eq!(l.negate().code, n.code);
}

#[test]
fn lit_double_negation() {
    let l = lit(7, false);
    assert_eq!(l.negate().negate(), l);
    let t = Lit::constant_lit(true);
    assert_eq!(t.var().id, 0);
    assert!(t.is_constant(true));
    assert!(!t.is_constant(false));
}

#[test]
fn cube_double_negation() {
    let c = cube_of(&[lit(1, true), lit(2, false), lit(9, true)]);
    let clause: Clause = c.negate();
    assert_eq!(clause.len(), 3);
    assert_eq!(clause.get(0), lit(1, false));
    assert_eq!(clause.get(1), lit(2, true));
    let back: Cube = clause.negate();
    assert_eq!(back, c);
}

#[test]
fn sort_by_var_orders_and_keeps_literals() {
    let mut c = cube_of(&[lit(9, false), lit(2, true), lit(5, false)]);
    c.sort_by_var();
    assert_eq!(c.len(), 3);
    assert_eq!(c.get(0), lit(2, true));
    assert_eq!(c.get(1), lit(5, false));
    assert_eq!(c.get(2), lit(9, false));
}

#[test]
fn subsume_is_set_inclusion() {
    let a = cube_of(&[lit(2, true), lit(5, false)]);
    let b = cube_of(&[lit(5, false), lit(2, true), lit(7, true)]);
    assert!(a.subsume(&b));
    assert!(!b.subsume(&a));
    let empty = Cube::new();
    assert!(empty.subsume(&a));
}

#[test]
fn ordered_subsume_agrees_with_subsume_on_sorted_cubes() {
    // Both cubes sorted ascending by variable: the subsequence walk
    // and the set check must answer alike.
    let a = cube_of(&[lit(2, true), lit(5, false)]);
    let b = cube_of(&[lit(2, true), lit(5, false), lit(7, true)]);
    assert!(a.ordered_subsume(&b));
    assert!(a.subsume(&b));
    let c = cube_of(&[lit(2, false), lit(5, false), lit(7, true)]);
    assert!(!a.ordered_subsume(&c));
    assert!(!a.subsume(&c));
}

#[test]
fn intersection_keeps_common_literals() {
    let a = cube_of(&[lit(1, true), lit(2, false), lit(3, true)]);
    let b = cube_of(&[lit(2, false), lit(3, false), lit(1, true)]);
    let i = a.intersection(&b);
    assert!(i.contains(lit(1, true)));
    assert!(i.contains(lit(2, false)));
    assert!(!i.contains(lit(3, true)));
    assert!(!i.contains(lit(3, false)));
    assert_eq!(i.len(), 2);
}

#[test]
fn cube_equality_is_by_literals() {
    let a = cube_of(&[lit(1, true), lit(4, false)]);
    let b = cube_of(&[lit(1, true), lit(4, false)]);
    let c = cube_of(&[lit(1, true)]);
    assert_eq!(a, b);
    assert_ne!(a, c);
}

#[test]
fn intersection_holds_no_literal_twice() {
    let a = cube_of(&[lit(1, true), lit(2, false), lit(1, true)]);
    let b = cube_of(&[lit(1, true), lit(2, false)]);
    let i = a.intersection(&b);
    assert_eq!(i.len(), 2);
    assert!(i.contains(lit(1, true)));
    assert!(i.contains(lit(2, false)));
}
