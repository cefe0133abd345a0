use lib::lit::{eval_lit, lit_from_dimacs, lit_neg, lit_sign, lit_to_dimacs, lit_var, LBOOL_FALSE, LBOOL_TRUE, LBOOL_UNDEF};

#[test]
fn dimacs_literals_encode_by_variable_and_sign() {
    assert_eq!(lit_from_dimacs(1), 0);
    assert_eq!(lit_from_dimacs(-1), 1);
    assert_eq!(lit_from_dimacs(3), 4);
    assert_eq!(lit_from_dimacs(-3), 5);
    assert_eq!(lit_from_dimacs(i32::MAX), 2 * (i32::MAX as u32 - 1));
    assert_eq!(lit_from_dimacs(-i32::MAX), 2 * (i32::MAX as u32 - 1) + 1);
}

#[test]
fn negation_flips_the_sign_bit() {
    assert_eq!(lit_neg(4), 5);
    assert_eq!(lit_neg(5), 4);
    assert_eq!(lit_neg(0), 1);
    for l in 0u32..100 {
        assert_eq!(lit_neg(lit_neg(l)), l);
        assert_ne!(lit_neg(l), l);
        assert_eq!(lit_var(lit_neg(l)), lit_var(l));
        assert_ne!(lit_sign(lit_neg(l)), lit_sign(l));
    }
}

#[test]
fn variable_and_sign_of_literals() {
    assert_eq!(lit_var(0), 0);
    assert_eq!(lit_var(1), 0);
    assert_eq!(lit_var(5), 2);
    assert!(lit_sign(4));
    assert!(!lit_sign(5));
}

#[test]
fn dimacs_round_trip() {
    for d in [1, -1, 2, -2, 7, -7, 1000, -1000, i32::MAX, -i32::MAX] {
        assert_eq!(lit_to_dimacs(lit_from_dimacs(d)), d);
    }
    for l in 0u32..50 {
        assert_eq!(lit_from_dimacs(lit_to_dimacs(l)), l);
    }
    assert_eq!(lit_to_dimacs(5), -3);
    assert_eq!(lit_to_dimacs(4), 3);
}

#[test]
fn literal_values_follow_the_assignment() {
    let assigns = vec![LBOOL_TRUE, LBOOL_FALSE, LBOOL_UNDEF];
    assert_eq!(eval_lit(&assigns, 0), LBOOL_TRUE);
    assert_eq!(eval_lit(&assigns, 1), LBOOL_FALSE);
    assert_eq!(eval_lit(&assigns, 2), LBOOL_FALSE);
    assert_eq!(eval_lit(&assigns, 3), LBOOL_TRUE);
    assert_eq!(eval_lit(&assigns, 4), LBOOL_UNDEF);
    assert_eq!(eval_lit(&assigns, 5), LBOOL_UNDEF);
}

#[test]
fn a_literal_and_its_complement_take_opposite_values() {
    let assigns = vec![LBOOL_TRUE, LBOOL_FALSE, LBOOL_UNDEF];
    for l in 0u32..6 {
        let a = eval_lit(&assigns, l);
        let b = eval_lit(&assigns, lit_neg(l));
        if a == LBOOL_UNDEF {
            assert_eq!(b, LBOOL_UNDEF);
        } else {
            assert_eq!(a ^ 1, b);
        }
    }
}
