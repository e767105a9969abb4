use stoichio_calc::chemistry::{
    Atom, ChemQuantity, ChemUnit, Molecule, PeriodicTable, QuantifiedEquation, RawEquation,
};
use stoichio_calc::parsing::{
    parse_molecule, parse_quantified_equation, parse_raw_equation, tokenize, Token, TokenType,
};

fn atom_hydrogen() -> Atom {
    Atom { name: "hydrogen".to_string(), code: "H".to_string(), atomic_mass_milli_amu: 1_007 }
}

fn atom_carbon() -> Atom {
    Atom { name: "carbon".to_string(), code: "C".to_string(), atomic_mass_milli_amu: 12_011 }
}

fn atom_oxygen() -> Atom {
    Atom { name: "oxygen".to_string(), code: "O".to_string(), atomic_mass_milli_amu: 15_999 }
}

fn atom_nitrogen() -> Atom {
    Atom { name: "nitrogen".to_string(), code: "N".to_string(), atomic_mass_milli_amu: 14_007 }
}

fn atom_sodium() -> Atom {
    Atom { name: "sodium".to_string(), code: "Na".to_string(), atomic_mass_milli_amu: 22_990 }
}

fn atom_selenium() -> Atom {
    Atom { name: "selenium".to_string(), code: "Se".to_string(), atomic_mass_milli_amu: 78_960 }
}

fn atom_rubidium() -> Atom {
    Atom { name: "rubidium".to_string(), code: "Rb".to_string(), atomic_mass_milli_amu: 85_468 }
}

fn atom_plutonium() -> Atom {
    Atom { name: "plutonium".to_string(), code: "Pu".to_string(), atomic_mass_milli_amu: 244_000 }
}

fn atom_iron() -> Atom {
    Atom { name: "iron".to_string(), code: "Fe".to_string(), atomic_mass_milli_amu: 55_845 }
}

fn atom_copper() -> Atom {
    Atom { name: "Copper".to_string(), code: "Cu".to_string(), atomic_mass_milli_amu: 63_546 }
}

fn atoms_map() -> PeriodicTable {
    PeriodicTable {
        entries: vec![
            atom_hydrogen(),
            atom_carbon(),
            atom_oxygen(),
            atom_nitrogen(),
            atom_sodium(),
            atom_selenium(),
            atom_rubidium(),
            atom_plutonium(),
            atom_iron(),
            atom_copper(),
        ],
    }
}

fn mol_h2o() -> Molecule {
    Molecule {
        atoms: vec![(atom_hydrogen(), 2), (atom_oxygen(), 1)],
        charge: 0,
        string_repr: Some("H2O".to_string()),
    }
}

fn mol_co2() -> Molecule {
    Molecule {
        atoms: vec![(atom_carbon(), 1), (atom_oxygen(), 2)],
        charge: 0,
        string_repr: Some("CO2".to_string()),
    }
}

fn mol_o2() -> Molecule {
    Molecule { atoms: vec![(atom_oxygen(), 2)], charge: 0, string_repr: Some("O2".to_string()) }
}

fn mol_c6h12o6() -> Molecule {
    Molecule {
        atoms: vec![(atom_carbon(), 6), (atom_hydrogen(), 12), (atom_oxygen(), 6)],
        charge: 0,
        string_repr: Some("C6H12O6".to_string()),
    }
}

fn assert_close(expected: f64, actual: f64, margin: f64) {
    let ok = (expected - actual).abs() <= margin;
    if !ok {
        panic!("expected {}, was {}", expected, actual);
    }
}

fn expect_molecule_parsing_success(input: &str, expected_atoms: Vec<(Atom, u32)>, expected_charge: i32) {
    let parsed = parse_molecule(&atoms_map(), &tokenize(&input.to_string()));
    match parsed {
        Ok(molecule) => {
            assert_eq!(expected_atoms, molecule.atoms);
            assert_eq!(expected_charge, molecule.charge);
        }
        Err(msg) => {
            println!("Failure: parsed was:");
            println!("{:?}", msg);
            assert!(false);
        }
    }
}

fn expect_molecule_parsing_failure(input: &str) {
    let result = parse_molecule(&atoms_map(), &tokenize(&input.to_string()));
    assert!(result.is_err());
}

#[test]
fn tokenize_valid_string_test() {
    let equation_str = "C6H12O6 + O2 => NaCl";
    let actual = tokenize(&equation_str.to_string());
    let exp: Vec<Token> = Vec::from([
        Token("C".to_string(), TokenType::Alphabetic, 0),
        Token("6".to_string(), TokenType::Numeric, 1),
        Token("H".to_string(), TokenType::Alphabetic, 2),
        Token("12".to_string(), TokenType::Numeric, 3),
        Token("O".to_string(), TokenType::Alphabetic, 5),
        Token("6".to_string(), TokenType::Numeric, 6),
        Token(" ".to_string(), TokenType::Whitespace, 7),
        Token("+".to_string(), TokenType::Plus, 8),
        Token(" ".to_string(), TokenType::Whitespace, 9),
        Token("O".to_string(), TokenType::Alphabetic, 10),
        Token("2".to_string(), TokenType::Numeric, 11),
        Token(" ".to_string(), TokenType::Whitespace, 12),
        Token("=>".to_string(), TokenType::Arrow, 13),
        Token(" ".to_string(), TokenType::Whitespace, 15),
        Token("Na".to_string(), TokenType::Alphabetic, 16),
        Token("Cl".to_string(), TokenType::Alphabetic, 18),
    ]);
    assert_eq!(exp, actual)
}

#[test]
fn parenthesis_bracket_mismatch_test() {
    expect_molecule_parsing_failure("Se(CH3]2O")
}

#[test]
fn bracket_parenthesis_mismatch_test() {
    expect_molecule_parsing_failure("Se[CH3)2O")
}

#[test]
fn unclosed_parenthesis_test() {
    expect_molecule_parsing_failure("Se(CH3O")
}

#[test]
fn unclosed_bracket_test() {
    expect_molecule_parsing_failure("Se[Ch3O")
}

#[test]
fn parse_se_ch3_2_o_test() {
    // entries come back in canonical (ascending symbol) order
    let se_c2_h6_o = vec![
        (atom_carbon(), 2),
        (atom_hydrogen(), 6),
        (atom_oxygen(), 1),
        (atom_selenium(), 1),
    ];
    expect_molecule_parsing_success("Se(CH3)2O", se_c2_h6_o, 0);
}

#[test]
fn parse_ch3_ch2_4_cooh_test() {
    let c6_h12_o2 = vec![(atom_carbon(), 6), (atom_hydrogen(), 12), (atom_oxygen(), 2)];
    expect_molecule_parsing_success("CH3(CH2)4COOH", c6_h12_o2, 0);
}

#[test]
fn parse_na_rb5_pu2_o12_h4_test() {
    // entries come back in canonical (ascending symbol) order
    let na_rb5_pu2_o12_h4 = vec![
        (atom_hydrogen(), 4),
        (atom_sodium(), 1),
        (atom_oxygen(), 12),
        (atom_plutonium(), 2),
        (atom_rubidium(), 5),
    ];
    expect_molecule_parsing_success("NaRb5[PuO4(OH)2]2", na_rb5_pu2_o12_h4, 0);
}

#[test]
fn parse_ch3coo_minus_test() {
    let ch3coo = vec![(atom_carbon(), 2), (atom_hydrogen(), 3), (atom_oxygen(), 2)];
    expect_molecule_parsing_success("CH3COO^-", ch3coo, -1);
}

#[test]
fn parse_c_ch3_4_test() {
    let c_ch3_4 = vec![(atom_carbon(), 5), (atom_hydrogen(), 12)];
    expect_molecule_parsing_success("C(CH3^-)4", c_ch3_4, -4)
}

#[test]
fn parse_respiration_equation_test() {
    let eq_str = "C6H12O6 + O2 => H2O + CO2".to_string();
    let expected = RawEquation {
        lhs: Vec::from([mol_c6h12o6(), mol_o2()]),
        rhs: Vec::from([mol_h2o(), mol_co2()]),
        arrow: "=>".to_string(),
    };
    let actual_res = parse_raw_equation(&atoms_map(), &tokenize(&eq_str));
    assert!(actual_res.is_ok());
    assert_eq!(expected, actual_res.unwrap());
}

#[test]
fn parse_redox_equation_test() {
    let eq_str = "Fe + Cu^2+ => Fe^2+ + Cu".to_string();
    let fe = Molecule {
        atoms: vec![(atom_iron(), 1)],
        charge: 0,
        string_repr: Some("Fe".to_string()),
    };
    let cu_2plus = Molecule {
        atoms: vec![(atom_copper(), 1)],
        charge: 2,
        string_repr: Some("Cu^2+".to_string()),
    };
    let fe_2plus = Molecule {
        atoms: vec![(atom_iron(), 1)],
        charge: 2,
        string_repr: Some("Fe^2+".to_string()),
    };
    let cu = Molecule {
        atoms: vec![(atom_copper(), 1)],
        charge: 0,
        string_repr: Some("Cu".to_string()),
    };
    let actual_res = parse_raw_equation(&atoms_map(), &tokenize(&eq_str));
    let expected = RawEquation {
        lhs: Vec::from([fe, cu_2plus]),
        rhs: Vec::from([fe_2plus, cu]),
        arrow: "=>".to_string(),
    };
    assert!(actual_res.is_ok());
    assert_eq!(expected, actual_res.unwrap())
}

#[test]
fn parse_quantified_equation_test() {
    let eq_str = "2.3 mol C6H12O6 + O2 => H2O + 1 g CO2".to_string();
    let expected_output = QuantifiedEquation {
        lhs: Vec::from([
            (mol_c6h12o6(), Some(quantity_value(2.3, ChemUnit::Mol))),
            (mol_o2(), None),
        ]),
        rhs: Vec::from([
            (mol_h2o(), None),
            (mol_co2(), Some(quantity_value(1.0, ChemUnit::Gram))),
        ]),
        arrow: "=>".to_string(),
    };
    let act_output_res = parse_quantified_equation(&atoms_map(), &tokenize(&eq_str));
    if let Err(err) = &act_output_res {
        println!("{:?}", err);
    }
    assert!(act_output_res.is_ok());
    let act_output = act_output_res.unwrap();
    let expected_chain: Vec<(Molecule, Option<ChemQuantity>)> =
        expected_output.lhs.iter().chain(expected_output.rhs.iter()).cloned().collect();
    let act_chain: Vec<(Molecule, Option<ChemQuantity>)> =
        act_output.lhs.iter().chain(act_output.rhs.iter()).cloned().collect();
    assert_eq!(expected_chain.len(), act_chain.len());
    for ((exp_molec, exp_quant), (act_molec, act_quant)) in expected_chain.iter().zip(act_chain) {
        assert_eq!(exp_molec.clone(), act_molec);
        assert_eq!(exp_quant.is_some(), act_quant.is_some());
        if exp_quant.is_some() {
            let ChemQuantity(exp_value, exp_unit) = exp_quant.clone().unwrap();
            let ChemQuantity(act_value, act_unit) = act_quant.clone().unwrap();
            assert_eq!(exp_unit, act_unit);
            let exp_f = (exp_value.num as f64) / (exp_value.den as f64);
            let act_f = (act_value.num as f64) / (act_value.den as f64);
            assert_close(exp_f, act_f, 1e-2);
        }
    }
}

fn quantity_value(v: f64, unit: ChemUnit) -> ChemQuantity {
    // exact decimal with three fractional digits
    let num = (v * 1000.0).round() as i64;
    ChemQuantity(stoichio_calc::chemistry::Rational { num, den: 1000 }, unit)
}

#[test]
fn tokenize_concat_reproduces_input_test() {
    let input = "2.3 mol C6H12O6 + O2 => H2O + 1 g CO2".to_string();
    let tokens = tokenize(&input);
    let mut rebuilt = String::new();
    let mut next_pos: u64 = 0;
    for Token(text, _, pos) in &tokens {
        assert_eq!(next_pos, *pos);
        rebuilt.push_str(text);
        next_pos += text.chars().count() as u64;
    }
    assert_eq!(input, rebuilt);
}

#[test]
fn parse_error_positions_test() {
    // the caret position points at the offending token
    let res = parse_molecule(&atoms_map(), &tokenize(&"Se(CH3]2O".to_string()));
    assert!(res.is_err());
    assert_eq!(Some(6), res.unwrap_err().1);
    let res2 = parse_molecule(&atoms_map(), &tokenize(&"Xy2O".to_string()));
    assert!(res2.is_err());
    assert_eq!(Some(0), res2.unwrap_err().1);
}
