use stoichio_calc::chemistry::{
    balance, compute_lhs_coefs, Atom, BalancedEquation, ChemQuantity, ChemUnit, Molecule,
    QuantifiedEquation, Rational, RawEquation,
};

fn hydrogen() -> Atom {
    Atom { name: "hydrogen".to_string(), code: "H".to_string(), atomic_mass_milli_amu: 1_007 }
}

fn carbon() -> Atom {
    Atom { name: "carbon".to_string(), code: "C".to_string(), atomic_mass_milli_amu: 12_011 }
}

fn oxygen() -> Atom {
    Atom { name: "oxygen".to_string(), code: "O".to_string(), atomic_mass_milli_amu: 15_999 }
}

fn h2o() -> Molecule {
    Molecule {
        atoms: vec![(hydrogen(), 2), (oxygen(), 1)],
        charge: 0,
        string_repr: Some("H2O".to_string()),
    }
}

fn co2() -> Molecule {
    Molecule {
        atoms: vec![(carbon(), 1), (oxygen(), 2)],
        charge: 0,
        string_repr: Some("CO2".to_string()),
    }
}

fn o2() -> Molecule {
    Molecule { atoms: vec![(oxygen(), 2)], charge: 0, string_repr: Some("O2".to_string()) }
}

fn c6h12o6() -> Molecule {
    Molecule {
        atoms: vec![(carbon(), 6), (hydrogen(), 12), (oxygen(), 6)],
        charge: 0,
        string_repr: Some("C6H12O6".to_string()),
    }
}

fn assert_near(expected: f64, actual: f64, margin: f64) {
    let ok = (expected - actual).abs() <= margin;
    if !ok {
        panic!("expected {}, was {}", expected, actual);
    }
}

#[test]
fn molecular_mass_c6h12o6_test() {
    let molecule = Molecule {
        atoms: vec![(carbon(), 6), (hydrogen(), 12), (oxygen(), 6)],
        charge: 0,
        string_repr: None,
    };
    let mass_amu = (molecule.mass_milli_amu() as f64) / 1000.0;
    assert_near(180.16, mass_amu, 0.05)
}

#[test]
fn balance_photosynthesis_eq_test() {
    let raw_equation = RawEquation {
        lhs: Vec::from([h2o(), co2()]),
        rhs: Vec::from([c6h12o6(), o2()]),
        arrow: "=>".to_string(),
    };
    let expected_balanced_equation = BalancedEquation {
        lhs: Vec::from([(h2o(), 6), (co2(), 6)]),
        rhs: Vec::from([(c6h12o6(), 1), (o2(), 6)]),
        arrow: "=>".to_string(),
    };
    let balanced_equation_res = balance(&raw_equation);
    assert!(balanced_equation_res.is_ok());
    assert_eq!(expected_balanced_equation, balanced_equation_res.unwrap());
}

#[test]
fn compute_rhs_test() {
    // C6H12O6: 1*9 mol -- 180_160 mg/mol * 9 mol = 180_160 * 9 mg
    // 6 O2: 6*7 mol -- 32 g/mol * 6*7 mol = 32*6*7 g
    // =>
    // 6 H2O: 6*7 mol -- 18.015 g/mol * 6*7 mol = 18.015*6*7 g
    // 6 CO2: 6*7 mol -- 44.01 g/mol * 6*7 mol = 44.01*6*7 g
    let eq = QuantifiedEquation {
        lhs: Vec::from([
            (
                c6h12o6(),
                Some(ChemQuantity(Rational { num: 180_160 * 9, den: 1 }, ChemUnit::Milligram)),
            ),
            (o2(), Some(ChemQuantity(Rational { num: 32 * 6 * 7, den: 1 }, ChemUnit::Gram))),
        ]),
        rhs: Vec::from([(h2o(), None), (co2(), None)]),
        arrow: "=>".to_string(),
    };
    let expected_lhs_mol: Vec<f64> = vec![9.0, 6.0 * 7.0];
    let act_res = compute_lhs_coefs(&eq);
    assert!(act_res.is_ok());
    let (act_eq, act_limiting) = act_res.unwrap();
    assert_eq!(o2(), act_limiting);
    let expected_molecules = vec![c6h12o6(), o2()];
    for (k, (act_molec, act_q_opt)) in act_eq.lhs.iter().enumerate() {
        assert_eq!(expected_molecules[k], act_molec.clone());
        assert!(act_q_opt.is_some());
        let act_quantity = act_q_opt.clone().unwrap();
        let act_value = (act_quantity.0.num as f64) / (act_quantity.0.den as f64);
        assert_near(expected_lhs_mol[k], act_value, 0.05);
        assert_eq!(ChemUnit::Mol, act_quantity.1);
    }
    let expected_rhs_mol: Vec<f64> = vec![6.0 * 7.0, 6.0 * 7.0];
    for (k, (_, act_q_opt)) in act_eq.rhs.iter().enumerate() {
        assert!(act_q_opt.is_some());
        let act_quantity = act_q_opt.clone().unwrap();
        let act_value = (act_quantity.0.num as f64) / (act_quantity.0.den as f64);
        assert_near(expected_rhs_mol[k], act_value, 0.05);
        assert_eq!(ChemUnit::Mol, act_quantity.1);
    }
}

#[test]
fn balance_missing_species_fails_test() {
    // a needed species is missing entirely: no coefficients can conserve
    // both hydrogen and oxygen
    let h2 = Molecule {
        atoms: vec![(hydrogen(), 2)],
        charge: 0,
        string_repr: Some("H2".to_string()),
    };
    let raw_equation = RawEquation {
        lhs: Vec::from([h2]),
        rhs: Vec::from([h2o()]),
        arrow: "=>".to_string(),
    };
    let res = balance(&raw_equation);
    assert!(res.is_err());
}

#[test]
fn chem_unit_for_test() {
    assert_eq!(Ok(ChemUnit::Gram), stoichio_calc::chemistry::chem_unit_for(&"g".to_string()));
    assert_eq!(
        Ok(ChemUnit::Milligram),
        stoichio_calc::chemistry::chem_unit_for(&"mg".to_string())
    );
    assert_eq!(Ok(ChemUnit::Mol), stoichio_calc::chemistry::chem_unit_for(&"mol".to_string()));
    assert_eq!(Err(()), stoichio_calc::chemistry::chem_unit_for(&"kg".to_string()));
    assert_eq!("g".to_string(), ChemUnit::Gram.render());
    assert_eq!("mg".to_string(), ChemUnit::Milligram.render());
    assert_eq!("mol".to_string(), ChemUnit::Mol.render());
}

#[test]
fn quantities_to_mol_and_grams_test() {
    // 36.03 g of water is 2 mol; 2 mol of water is 36.03 g
    let eq = QuantifiedEquation {
        lhs: Vec::from([(
            h2o(),
            Some(ChemQuantity(Rational { num: 36030, den: 1000 }, ChemUnit::Gram)),
        )]),
        rhs: Vec::from([(h2o(), None)]),
        arrow: "=>".to_string(),
    };
    let in_mol = eq.quantities_to_mol().unwrap();
    let q = in_mol.lhs[0].1.clone().unwrap();
    assert_eq!(ChemUnit::Mol, q.1);
    assert_near(2.0, (q.0.num as f64) / (q.0.den as f64), 1e-3);
    let back = in_mol.quantities_to_grams().unwrap();
    let qg = back.lhs[0].1.clone().unwrap();
    assert_eq!(ChemUnit::Gram, qg.1);
    assert_near(36.03, (qg.0.num as f64) / (qg.0.den as f64), 1e-3);
}

#[test]
fn molecule_renders_with_counts_test() {
    let m = Molecule {
        atoms: vec![(carbon(), 6), (hydrogen(), 12), (oxygen(), 6)],
        charge: 0,
        string_repr: None,
    };
    assert_eq!("C6H12O6".to_string(), m.render());
    let w = Molecule { atoms: vec![(hydrogen(), 2), (oxygen(), 1)], charge: 0, string_repr: None };
    assert_eq!("H2O".to_string(), w.render());
}

#[test]
fn molecule_equality_ignores_entry_order_test() {
    // equality depends on counts and charge only
    let a = Molecule {
        atoms: vec![(hydrogen(), 2), (oxygen(), 1)],
        charge: 0,
        string_repr: Some("H2O".to_string()),
    };
    let b = Molecule {
        atoms: vec![(oxygen(), 1), (hydrogen(), 2)],
        charge: 0,
        string_repr: None,
    };
    assert_eq!(a, b);
    let c = Molecule { atoms: vec![(oxygen(), 1), (hydrogen(), 3)], charge: 0, string_repr: None };
    assert_ne!(a, c);
    let d = Molecule { atoms: vec![(hydrogen(), 2), (oxygen(), 1)], charge: 1, string_repr: None };
    assert_ne!(a, d);
}

#[test]
fn compute_lhs_coefs_rejects_mixed_quantities_test() {
    let eq = QuantifiedEquation {
        lhs: Vec::from([
            (h2o(), Some(ChemQuantity(Rational { num: 1, den: 1 }, ChemUnit::Mol))),
            (co2(), None),
        ]),
        rhs: Vec::from([(c6h12o6(), None)]),
        arrow: "=>".to_string(),
    };
    assert!(compute_lhs_coefs(&eq).is_err());
}
