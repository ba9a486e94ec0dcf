use metamath_knife::bit_set::Bitset;
use metamath_knife::formula::Formula;
use metamath_knife::formula::FormulaBuilder;
use metamath_knife::formula::Substitutions;
use metamath_knife::tree::Tree;

// Labels of the formulas below.
const WEQ: u32 = 10;
const CADD: u32 = 11;
const CA: u32 = 12;
const CB: u32 = 13;
const CC: u32 = 14;
const WFF: u32 = 1;
const CLASS: u32 = 2;

/// `( left + right )`
fn add(b: &mut FormulaBuilder, left: (u32, bool), right: (u32, bool)) {
    b.reduce(left.0, 0, 0, left.1);
    b.reduce(right.0, 0, 0, right.1);
    b.reduce(CADD, 2, 0, false);
}

/// `( a + b ) = ( b + a )`, with the letters as constants or as variables.
fn commuted(a: u32, b: u32, variables: bool) -> Formula {
    let mut builder = FormulaBuilder::new();
    add(&mut builder, (a, variables), (b, variables));
    add(&mut builder, (b, variables), (a, variables));
    builder.reduce(WEQ, 2, 0, false);
    builder.build(WFF)
}

fn leaf(label: u32, variable: bool) -> Formula {
    let mut builder = FormulaBuilder::new();
    builder.reduce(label, 0, 0, variable);
    builder.build(CLASS)
}

#[test]
fn paths_count_children_from_one() {
    let f = commuted(CA, CB, false);
    assert_eq!(f.get_by_path(&[]), Some(WEQ));
    assert_eq!(f.get_by_path(&[1]), Some(CADD));
    assert_eq!(f.get_by_path(&[1, 1]), Some(CA));
    assert_eq!(f.get_by_path(&[1, 2]), Some(CB));
    assert_eq!(f.get_by_path(&[2, 1]), Some(CB));
    assert_eq!(f.get_by_path(&[2, 2]), Some(CA));
    assert_eq!(f.typecode(), WFF);
}

#[test]
fn paths_that_leave_the_tree_give_nothing() {
    let f = commuted(CA, CB, false);
    assert_eq!(f.get_by_path(&[0]), None);
    assert_eq!(f.get_by_path(&[3]), None);
    assert_eq!(f.get_by_path(&[1, 3]), None);
    assert_eq!(f.get_by_path(&[1, 1, 1]), None);
    assert_eq!(f.get_by_path(&[usize::MAX]), None);
}

#[test]
fn reduce_leaves_the_entries_above_the_offset() {
    // The right operand is made first and stays on top while the left one
    // is reduced below it.
    let mut builder = FormulaBuilder::new();
    builder.reduce(CA, 0, 0, false);
    builder.reduce(CB, 0, 0, false);
    builder.reduce(CC, 0, 0, false);
    // stack: CA CB CC; wrap CA CB, leaving CC
    builder.reduce(CADD, 2, 1, false);
    // stack: CADD(CA, CB) CC
    builder.reduce(WEQ, 2, 0, false);
    let f = builder.build(WFF);
    assert_eq!(f.get_by_path(&[1]), Some(CADD));
    assert_eq!(f.get_by_path(&[1, 1]), Some(CA));
    assert_eq!(f.get_by_path(&[1, 2]), Some(CB));
    assert_eq!(f.get_by_path(&[2]), Some(CC));
    assert_eq!(f.get_by_path(&[3]), None);
}

#[test]
fn reduce_with_no_children_at_an_offset_inserts() {
    let mut builder = FormulaBuilder::new();
    builder.reduce(CB, 0, 0, false);
    builder.reduce(CA, 0, 1, false);
    builder.reduce(CADD, 2, 0, false);
    let f = builder.build(CLASS);
    assert_eq!(f.get_by_path(&[1]), Some(CA));
    assert_eq!(f.get_by_path(&[2]), Some(CB));
}

#[test]
fn equality_is_reflexive_and_symmetric() {
    let f = commuted(CA, CB, false);
    let g = commuted(CA, CB, false);
    let h = commuted(CB, CA, false);
    assert!(f == f);
    assert!(f == g);
    assert!(g == f);
    assert!(f != h);
    assert!(h != f);
}

#[test]
fn equality_passes_over_variable_marks_and_typecodes() {
    assert!(commuted(CA, CB, false) == commuted(CA, CB, true));
    assert!(leaf(CA, true) == leaf(CA, false));
    let mut builder = FormulaBuilder::new();
    builder.reduce(CA, 0, 0, false);
    let other_typecode = builder.build(WFF);
    assert!(leaf(CA, false) == other_typecode);
}

#[test]
fn equality_compares_children_as_far_as_both_sides_have_them() {
    // X(a, b) and X(a) have the same label, both have children, and the
    // one pair of children that there is agrees.
    let mut two = FormulaBuilder::new();
    two.reduce(CA, 0, 0, false);
    two.reduce(CB, 0, 0, false);
    two.reduce(CADD, 2, 0, false);
    let two = two.build(CLASS);
    let mut one = FormulaBuilder::new();
    one.reduce(CA, 0, 0, false);
    one.reduce(CADD, 1, 0, false);
    let one = one.build(CLASS);
    assert!(two == one);
    assert!(one == two);
    // A node without children differs from one with children.
    assert!(leaf(CADD, false) != one);
}

#[test]
fn unify_binds_the_variables_of_the_pattern() {
    let ground = commuted(CA, CB, false);
    // pattern: x = y with x, y variables
    let mut builder = FormulaBuilder::new();
    builder.reduce(100, 0, 0, true);
    builder.reduce(101, 0, 0, true);
    builder.reduce(WEQ, 2, 0, false);
    let pattern = builder.build(WFF);
    let subs = ground.unify(&pattern).unwrap();
    assert!(subs.contains(100));
    assert!(subs.contains(101));
    assert!(!subs.contains(CA));
    let x = subs.get(100).unwrap();
    assert_eq!(x.get_by_path(&[]), Some(CADD));
    assert_eq!(x.get_by_path(&[1]), Some(CA));
    assert_eq!(x.get_by_path(&[2]), Some(CB));
    let y = subs.get(101).unwrap();
    assert_eq!(y.get_by_path(&[1]), Some(CB));
    assert_eq!(y.get_by_path(&[2]), Some(CA));
    assert_eq!(x.typecode(), WFF);
}

#[test]
fn unify_is_sound() {
    let ground = commuted(CA, CB, false);
    let pattern = commuted(100, 101, true);
    let subs = ground.unify(&pattern).unwrap();
    assert!(pattern.substitute(&subs) == ground);
    assert!(ground == pattern.substitute(&subs));
}

#[test]
fn unify_needs_a_repeated_variable_to_stand_for_equal_terms() {
    // ( x + y ) = ( y + x ) against ( A + B ) = ( A + B ): y would be B and A
    let pattern = commuted(100, 101, true);
    let mut builder = FormulaBuilder::new();
    add(&mut builder, (CA, false), (CB, false));
    add(&mut builder, (CA, false), (CB, false));
    builder.reduce(WEQ, 2, 0, false);
    let ground = builder.build(WFF);
    assert!(ground.unify(&pattern).is_none());
}

#[test]
fn unify_fails_on_another_label() {
    let ground = commuted(CA, CB, false);
    assert!(ground.unify(&leaf(CA, false)).is_none());
    assert!(leaf(CA, false).unify(&leaf(CB, false)).is_none());
    assert!(leaf(CA, false).unify(&leaf(CA, false)).is_some());
    // children on one side only
    let mut builder = FormulaBuilder::new();
    builder.reduce(CA, 0, 0, false);
    builder.reduce(CADD, 1, 0, false);
    assert!(builder.build(CLASS).unify(&leaf(CADD, false)).is_none());
}

#[test]
fn unify_succeeds_on_every_generalization() {
    let ground = commuted(CA, CB, false);
    // replace the left side by one variable and the last leaf by another
    let mut builder = FormulaBuilder::new();
    builder.reduce(100, 0, 0, true);
    builder.reduce(CB, 0, 0, false);
    builder.reduce(101, 0, 0, true);
    builder.reduce(CADD, 2, 0, false);
    builder.reduce(WEQ, 2, 0, false);
    let pattern = builder.build(WFF);
    let subs = ground.unify(&pattern).unwrap();
    assert_eq!(subs.get(100).unwrap().get_by_path(&[]), Some(CADD));
    assert_eq!(subs.get(101).unwrap().get_by_path(&[]), Some(CA));
    // the root alone
    let subs = ground.unify(&leaf(100, true)).unwrap();
    assert!(*subs.get(100).unwrap() == ground);
}

#[test]
fn substitute_replaces_bound_variables_only() {
    let pattern = commuted(100, 101, true);
    let mut subs = Substitutions::new();
    subs.insert(100, commuted(CA, CB, false));
    let result = pattern.substitute(&subs);
    assert_eq!(result.typecode(), WFF);
    assert_eq!(result.get_by_path(&[1, 1]), Some(WEQ));
    assert_eq!(result.get_by_path(&[1, 1, 1, 1]), Some(CA));
    assert_eq!(result.get_by_path(&[1, 2]), Some(101));
    assert_eq!(result.get_by_path(&[2, 2]), Some(WEQ));
    assert_eq!(result.get_by_path(&[2, 1]), Some(101));
}

#[test]
fn substitute_leaves_constants_with_a_bound_label() {
    // The label 100 is bound, but the nodes that carry it are no variables.
    let constant = commuted(100, 101, false);
    let mut subs = Substitutions::new();
    subs.insert(100, leaf(CA, false));
    let result = constant.substitute(&subs);
    assert_eq!(result.get_by_path(&[1, 1]), Some(100));
    assert!(result == constant);
}

#[test]
fn substitute_without_the_variables_of_the_formula_changes_nothing() {
    let f = commuted(100, 101, true);
    let mut subs = Substitutions::new();
    subs.insert(102, leaf(CA, false));
    subs.insert(CADD, leaf(CB, false));
    let result = f.substitute(&subs);
    assert!(result == f);
    assert_eq!(result.get_by_path(&[1, 1]), Some(100));
    assert_eq!(result.get_by_path(&[2, 2]), Some(100));
    assert!(f.substitute(&Substitutions::new()) == f);
}

#[test]
fn substitutions_hold_the_last_binding() {
    let mut subs = Substitutions::new();
    assert!(subs.get(1).is_none());
    subs.insert(1, leaf(CA, false));
    subs.insert(1, leaf(CB, false));
    assert_eq!(subs.get(1).unwrap().get_by_path(&[]), Some(CB));
    assert!(subs.contains(1));
    assert!(!subs.contains(2));
}

#[test]
fn compact_keeps_the_formula() {
    let f = commuted(CA, CB, true);
    let g = f.compact();
    assert!(f == g);
    assert_eq!(g.typecode(), f.typecode());
    assert_eq!(g.get_by_path(&[2, 1]), Some(CB));
}

#[test]
fn builder_nodes_beside_the_stack() {
    let mut builder = FormulaBuilder::new();
    let a = builder.add_node(CA, vec![], true);
    let b = builder.add_node(CB, vec![], false);
    let sum = builder.add_node(CADD, vec![a, b], false);
    let twice = builder.add_node(WEQ, vec![sum, sum], false);
    assert_eq!((a, b, sum, twice), (0, 1, 2, 3));
    let f = builder.build_at(twice, WFF);
    assert_eq!(f.get_by_path(&[1, 1]), Some(CA));
    assert_eq!(f.get_by_path(&[2, 2]), Some(CB));
    // the first leaf is a variable, the second is not
    let mut subs = Substitutions::new();
    subs.insert(CA, leaf(CC, false));
    subs.insert(CB, leaf(CC, false));
    let g = f.substitute(&subs);
    assert_eq!(g.get_by_path(&[1, 1]), Some(CC));
    assert_eq!(g.get_by_path(&[1, 2]), Some(CB));
}

#[test]
fn bitset_holds_what_was_set() {
    let mut s = Bitset::new();
    assert!(!s.has_bit(0));
    assert!(!s.has_bit(1000));
    s.set_bit(0);
    s.set_bit(63);
    s.set_bit(64);
    s.set_bit(200);
    for i in 0..300 {
        assert_eq!(s.has_bit(i), i == 0 || i == 63 || i == 64 || i == 200, "bit {}", i);
    }
    s.set_bit(63);
    assert!(s.has_bit(63));
    let copy = s.duplicate();
    s.set_bit(5);
    assert!(!copy.has_bit(5));
    assert!(copy.has_bit(200));
}

#[test]
fn tree_children_by_number() {
    let mut t = Tree::new();
    assert_eq!(t.node_count(), 0);
    let a = t.add_node(7, vec![]);
    let b = t.add_node(8, vec![]);
    let c = t.add_node(9, vec![a, b, a]);
    assert_eq!(t.node_count(), 3);
    assert_eq!(t.label(c), 9);
    assert!(t.has_children(c));
    assert!(!t.has_children(a));
    assert_eq!(t.child_count(c), 3);
    assert_eq!(t.child(c, 1), b);
    assert_eq!(t.nth_child(c, 0), None);
    assert_eq!(t.nth_child(c, 1), Some(a));
    assert_eq!(t.nth_child(c, 2), Some(b));
    assert_eq!(t.nth_child(c, 3), Some(a));
    assert_eq!(t.nth_child(c, 4), None);
    assert_eq!(t.nth_child(a, 1), None);
}

#[test]
fn reduce_leaves_the_nodes_beside_the_stack_as_they_are() {
    let mut b = FormulaBuilder::new();
    let beside = b.add_node(7, vec![], true);
    b.reduce(1, 0, 0, false);
    b.reduce(2, 0, 0, true);
    b.reduce(3, 2, 0, false);
    // the node beside the stack is still what it was
    let kept = b.build_at(beside, 9);
    assert_eq!(kept.get_by_path(&[]), Some(7));
    assert_eq!(kept.get_by_path(&[1]), None);
}

#[test]
fn a_failed_match_leaves_no_binding_behind() {
    // f(c, d) against f(v, v): v is bound to c, and d is another term
    let mut a = FormulaBuilder::new();
    a.reduce(10, 0, 0, false);
    a.reduce(11, 0, 0, false);
    a.reduce(1, 2, 0, false);
    let a = a.build(9);
    let mut b = FormulaBuilder::new();
    b.reduce(5, 0, 0, true);
    b.reduce(5, 0, 0, true);
    b.reduce(1, 2, 0, false);
    let b = b.build(9);
    assert!(a.unify(&b).is_none());
    // with equal terms under the variable the match goes through
    let mut c = FormulaBuilder::new();
    c.reduce(10, 0, 0, false);
    c.reduce(10, 0, 0, false);
    c.reduce(1, 2, 0, false);
    let c = c.build(9);
    let subs = c.unify(&b).unwrap();
    assert_eq!(subs.get(5).unwrap().get_by_path(&[]), Some(10));
}
