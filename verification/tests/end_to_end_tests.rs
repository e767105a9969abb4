//! Balancing equations end to end: parse, balance, render.

use stoichio_calc::chemistry::{balance, Atom, PeriodicTable};
use stoichio_calc::parsing::{parse_raw_equation, tokenize};

fn table_atom(name: &str, code: &str, milli: u64) -> Atom {
    Atom { name: name.to_string(), code: code.to_string(), atomic_mass_milli_amu: milli }
}

fn fixture_table() -> PeriodicTable {
    PeriodicTable {
        entries: vec![
            table_atom("hydrogen", "H", 1_007),
            table_atom("carbon", "C", 12_011),
            table_atom("nitrogen", "N", 14_007),
            table_atom("oxygen", "O", 15_999),
            table_atom("fluorine", "F", 18_998),
            table_atom("aluminium", "Al", 26_981),
            table_atom("phosphorus", "P", 30_973),
            table_atom("sulfur", "S", 32_060),
            table_atom("chlorine", "Cl", 35_450),
            table_atom("calcium", "Ca", 40_078),
            table_atom("iron", "Fe", 55_845),
            table_atom("zinc", "Zn", 65_380),
        ],
    }
}

fn perform_equation_balancing_test(input_eq: &str, expected_output_eq: &str) {
    let parsed_raw_eq = parse_raw_equation(&fixture_table(), &tokenize(&input_eq.to_string()));
    assert!(parsed_raw_eq.is_ok());
    let balanced_eq = balance(&parsed_raw_eq.unwrap());
    assert!(balanced_eq.is_ok());
    let actual_output = balanced_eq.unwrap().render();
    assert_eq!(expected_output_eq.to_string(), actual_output)
}

#[test]
fn c5h12_x_o2_test() {
    perform_equation_balancing_test("C5H12 + O2 => CO2 + H2O", "C5H12 + 8 O2 => 5 CO2 + 6 H2O");
}

#[test]
fn zn_x_hcl_test() {
    perform_equation_balancing_test("Zn + HCl => ZnCl2 + H2", "Zn + 2 HCl => ZnCl2 + H2");
}

#[test]
fn ca_oh2_x_h3po4_test() {
    perform_equation_balancing_test(
        "Ca(OH)2 + H3PO4 => Ca3(PO4)2 + H2O",
        "3 Ca(OH)2 + 2 H3PO4 => Ca3(PO4)2 + 6 H2O",
    );
}

#[test]
fn fecl3_x_nh4oh_test() {
    perform_equation_balancing_test(
        "FeCl3 + NH4OH => Fe(OH)3 + NH4Cl",
        "FeCl3 + 3 NH4OH => Fe(OH)3 + 3 NH4Cl",
    );
}

#[test]
fn s8_x_f2_test() {
    perform_equation_balancing_test("S8 + F2 => SF6", "S8 + 24 F2 => 8 SF6");
}

#[test]
fn c2h6_x_o2_test() {
    perform_equation_balancing_test(
        "C2H6 + O2 => CO2 + H2O",
        "2 C2H6 + 7 O2 => 4 CO2 + 6 H2O",
    );
}

#[test]
fn al2_co3_3_x_h3po4_test() {
    perform_equation_balancing_test(
        "Al2(CO3)3 + H3PO4 => AlPO4 + CO2 + H2O",
        "Al2(CO3)3 + 2 H3PO4 => 2 AlPO4 + 3 CO2 + 3 H2O",
    );
}

#[test]
fn underdetermined_equation_fails_test() {
    // a missing needed species leaves the system unsolvable
    let parsed = parse_raw_equation(&fixture_table(), &tokenize(&"H2 => H2O".to_string()));
    assert!(parsed.is_ok());
    let res = balance(&parsed.unwrap());
    assert!(res.is_err());
}

#[test]
fn redox_charge_balance_test() {
    // net charge must balance; the arrow spelling is preserved
    let table = PeriodicTable {
        entries: vec![table_atom("iron", "Fe", 55_845), table_atom("Copper", "Cu", 63_546)],
    };
    let parsed = parse_raw_equation(&table, &tokenize(&"Fe + Cu^2+ <=> Fe^3+ + Cu".to_string()));
    assert!(parsed.is_ok());
    let balanced = balance(&parsed.unwrap()).unwrap();
    assert_eq!("2 Fe + 3 Cu^2+ <=> 2 Fe^3+ + 3 Cu".to_string(), balanced.render());
}
