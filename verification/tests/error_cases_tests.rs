//! One input for each failure mode of the parsers and the solver.

use stoichio_calc::chemistry::{
    balance, Atom, ChemQuantity, ChemUnit, Molecule, PeriodicTable, Rational,
};
use stoichio_calc::parsing::{
    parse_molecule, parse_quantified_equation, parse_raw_equation, tokenize,
};

fn small_table() -> PeriodicTable {
    PeriodicTable {
        entries: vec![
            Atom {
                name: "hydrogen".to_string(),
                code: "H".to_string(),
                atomic_mass_milli_amu: 1_007,
            },
            Atom {
                name: "carbon".to_string(),
                code: "C".to_string(),
                atomic_mass_milli_amu: 12_011,
            },
            Atom {
                name: "oxygen".to_string(),
                code: "O".to_string(),
                atomic_mass_milli_amu: 15_999,
            },
        ],
    }
}

#[test]
fn unrecognized_character_test() {
    let res = parse_molecule(&small_table(), &tokenize(&"H2&O".to_string()));
    assert!(res.is_err());
    assert_eq!(Some(2), res.unwrap_err().1);
}

#[test]
fn unknown_element_test() {
    let res = parse_molecule(&small_table(), &tokenize(&"HQi3".to_string()));
    assert!(res.is_err());
    let err = res.unwrap_err();
    // the message names the offending token, the offset points at it
    assert_eq!("unknown element: Qi".to_string(), err.0);
    assert_eq!(Some(1), err.1);
}

#[test]
fn mismatch_message_names_token_test() {
    let res = parse_molecule(&small_table(), &tokenize(&"H(O]2".to_string()));
    assert!(res.is_err());
    assert_eq!("mismatched group symbols: ]".to_string(), res.unwrap_err().0);
}

#[test]
fn malformed_charge_test() {
    let res = parse_molecule(&small_table(), &tokenize(&"H2O^".to_string()));
    assert!(res.is_err());
    assert_eq!(Some(3), res.unwrap_err().1);
}

#[test]
fn charge_in_both_orders_test() {
    let m1 = parse_molecule(&small_table(), &tokenize(&"O^2-".to_string())).unwrap();
    assert_eq!(-2, m1.charge);
    let m2 = parse_molecule(&small_table(), &tokenize(&"O^-2".to_string())).unwrap();
    assert_eq!(-2, m2.charge);
    let m3 = parse_molecule(&small_table(), &tokenize(&"O^+".to_string())).unwrap();
    assert_eq!(1, m3.charge);
}

#[test]
fn coefficient_too_large_test() {
    let res = parse_molecule(&small_table(), &tokenize(&"H4294967296".to_string()));
    assert!(res.is_err());
}

#[test]
fn equation_needs_exactly_two_members_test() {
    let none = parse_raw_equation(&small_table(), &tokenize(&"H2O".to_string()));
    assert!(none.is_err());
    let three = parse_raw_equation(&small_table(), &tokenize(&"H2 => O2 => H2O".to_string()));
    assert!(three.is_err());
}

#[test]
fn unknown_unit_test() {
    let res =
        parse_quantified_equation(&small_table(), &tokenize(&"2 kg H2O => H2O".to_string()));
    assert!(res.is_err());
}

#[test]
fn quantity_format_test() {
    let res = parse_quantified_equation(&small_table(), &tokenize(&"2. => H2O".to_string()));
    assert!(res.is_err());
}

#[test]
fn zero_coefficient_solution_fails_test() {
    // the only solution gives a reactant the coefficient zero
    let c = Molecule {
        atoms: vec![(
            Atom {
                name: "carbon".to_string(),
                code: "C".to_string(),
                atomic_mass_milli_amu: 12_011,
            },
            1,
        )],
        charge: 0,
        string_repr: Some("C".to_string()),
    };
    let h = Molecule {
        atoms: vec![(
            Atom {
                name: "hydrogen".to_string(),
                code: "H".to_string(),
                atomic_mass_milli_amu: 1_007,
            },
            1,
        )],
        charge: 0,
        string_repr: Some("H".to_string()),
    };
    let raw = stoichio_calc::chemistry::RawEquation {
        lhs: vec![c],
        rhs: vec![h],
        arrow: "=>".to_string(),
    };
    assert!(balance(&raw).is_err());
}

#[test]
fn quantity_mode_rejected_for_products_test() {
    // quantities on products break the reactants-only mode
    let h2o = Molecule {
        atoms: vec![
            (
                Atom {
                    name: "hydrogen".to_string(),
                    code: "H".to_string(),
                    atomic_mass_milli_amu: 1_007,
                },
                2,
            ),
            (
                Atom {
                    name: "oxygen".to_string(),
                    code: "O".to_string(),
                    atomic_mass_milli_amu: 15_999,
                },
                1,
            ),
        ],
        charge: 0,
        string_repr: Some("H2O".to_string()),
    };
    let eq = stoichio_calc::chemistry::QuantifiedEquation {
        lhs: vec![(h2o.clone(), Some(ChemQuantity(Rational { num: 1, den: 1 }, ChemUnit::Mol)))],
        rhs: vec![(h2o, Some(ChemQuantity(Rational { num: 1, den: 1 }, ChemUnit::Mol)))],
        arrow: "=>".to_string(),
    };
    assert!(stoichio_calc::chemistry::compute_lhs_coefs(&eq).is_err());
}
