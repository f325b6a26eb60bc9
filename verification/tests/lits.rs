use aries::sat::lits::{BVar, Decision, Lit};

#[test]
fn test_add() {
    let a = BVar::from_bits(1);
    let at = a.true_lit();
    assert_eq!(at.id.get(), 1 * 2 + 1);
    let af = a.false_lit();
    assert_eq!(af.id.get(), 1 * 2);
    assert_eq!(a, at.variable());
    assert_eq!(a, af.variable());
    assert_ne!(at, af);
}

#[test]
fn negation_flips_the_value_and_keeps_the_variable() {
    let v = BVar::from_bits(7);
    let l = v.true_lit();
    let n = !l;
    assert_eq!(n, v.false_lit());
    assert_eq!(n.variable(), v);
    assert!(n.is_negative());
    assert_eq!(!n, l);
}

#[test]
fn literal_indices_follow_variables() {
    let v = BVar::from_bits(3);
    assert_eq!(v.to_index(), 3);
    assert_eq!(v.lit(true).to_index(), 7);
    assert_eq!(v.lit(false).to_index(), 6);
    assert_eq!(v.next().to_index(), 4);
    assert_eq!(Lit::dummy().variable().to_index(), 0);
}

#[test]
fn decision_negation() {
    let v = BVar::from_bits(2);
    match !Decision::True(v) {
        Decision::False(w) => assert_eq!(w, v),
        Decision::True(_) => panic!("negation kept the value"),
    }
}
