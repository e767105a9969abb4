use stoichio_calc::data_loading::{load_peridic_table_as_vec, load_periodic_table};

fn sample_csv() -> String {
    [
        "AtomicNumber,Element,Symbol,AtomicMass",
        "1,Hydrogen,H,1.007",
        "6,Carbon,C,12.011",
        "8,Oxygen,O,15.999",
        "10,Neon,Ne,20.18",
        "34,Selenium,Se,78.96",
        "71,Lutetium,Lu,174.967",
    ]
    .join("\n")
}

#[test]
fn load_table_as_vec_test() {
    let loaded = load_peridic_table_as_vec(sample_csv().as_str()).unwrap();
    assert_eq!(6, loaded.len());
    assert_eq!("Neon", loaded.get(3).unwrap().name);
    assert_eq!("Se", loaded.get(4).unwrap().code);
    assert_eq!(174_967, loaded.get(5).unwrap().atomic_mass_milli_amu);
    assert_eq!(1_007, loaded.get(0).unwrap().atomic_mass_milli_amu);
    assert_eq!(20_180, loaded.get(3).unwrap().atomic_mass_milli_amu);
}

#[test]
fn load_table_lookup_test() {
    let table = load_periodic_table(sample_csv().as_str()).unwrap();
    let se = table.lookup(&"Se".to_string());
    assert!(se.is_some());
    assert_eq!("Selenium", se.unwrap().name);
    assert!(table.lookup(&"Xx".to_string()).is_none());
}

#[test]
fn load_table_rejects_malformed_line_test() {
    let bad = "header\n1,Hydrogen,H,1.0x07";
    assert!(load_peridic_table_as_vec(bad).is_err());
    let short = "header\n1,Hydrogen";
    assert!(load_peridic_table_as_vec(short).is_err());
}
