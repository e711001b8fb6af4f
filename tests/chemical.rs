use chem_balance::chemical::parse_chemical;

#[test]
fn parse_chemical_test_shallow() {
    let output = parse_chemical("CH3COONa").unwrap();
    assert_eq!(2, output.count("C"));
    assert_eq!(3, output.count("H"));
    assert_eq!(2, output.count("O"));
    assert_eq!(1, output.count("Na"));
}

#[test]
fn parse_chemical_test_deep() {
    let output = parse_chemical("(MgFe)2(MgFe)(OH)2Si8O22").unwrap();
    assert_eq!(3, output.count("Mg"));
    assert_eq!(3, output.count("Fe"));
    assert_eq!(24, output.count("O"));
    assert_eq!(2, output.count("H"));
    assert_eq!(8, output.count("Si"));
}

#[test]
fn parse_keeps_source_text() {
    let output = parse_chemical("Mg(OH)2").unwrap();
    assert_eq!("Mg(OH)2", output.display);
    assert_eq!(1, output.count("Mg"));
    assert_eq!(2, output.count("O"));
    assert_eq!(2, output.count("H"));
    assert_eq!(0, output.count("Na"));
    assert_eq!(3, output.parts.len());
}

#[test]
fn reparse_of_source_text_gives_same_counts() {
    for formula in ["CH3COONa", "(MgFe)2(MgFe)(OH)2Si8O22", "Ca3(PO4)2", "K4(Fe(CN)6)"] {
        let first = parse_chemical(formula).unwrap();
        let second = parse_chemical(&first.display).unwrap();
        assert_eq!(first.parts.len(), second.parts.len());
        for (symbol, count) in &first.parts {
            let name: String = symbol.iter().collect();
            assert_eq!(*count, second.count(&name));
        }
    }
}

#[test]
fn parse_nested_groups() {
    let output = parse_chemical("K4(Fe(CN)6)").unwrap();
    assert_eq!(4, output.count("K"));
    assert_eq!(1, output.count("Fe"));
    assert_eq!(6, output.count("C"));
    assert_eq!(6, output.count("N"));
    let output = parse_chemical("((OH)2)3").unwrap();
    assert_eq!(6, output.count("O"));
    assert_eq!(6, output.count("H"));
}

#[test]
fn parse_merges_repeated_symbols() {
    let output = parse_chemical("HOH").unwrap();
    assert_eq!(2, output.count("H"));
    assert_eq!(1, output.count("O"));
    assert_eq!(2, output.parts.len());
}

#[test]
fn parse_multi_digit_counts() {
    let output = parse_chemical("C15H31COONa").unwrap();
    assert_eq!(16, output.count("C"));
    assert_eq!(31, output.count("H"));
    assert_eq!(2, output.count("O"));
    assert_eq!(1, output.count("Na"));
    let output = parse_chemical("(C15H31COO)2Ca").unwrap();
    assert_eq!(32, output.count("C"));
    assert_eq!(62, output.count("H"));
    assert_eq!(4, output.count("O"));
    assert_eq!(1, output.count("Ca"));
}

#[test]
fn parse_empty_formula() {
    let output = parse_chemical("").unwrap();
    assert_eq!(0, output.parts.len());
}

#[test]
fn parse_rejects_malformed_formulas() {
    assert!(parse_chemical("2H").is_none());
    assert!(parse_chemical("H2O)").is_none());
    assert!(parse_chemical(")").is_none());
    assert!(parse_chemical("(OH").is_none());
    assert!(parse_chemical("Mg(OH").is_none());
    assert!(parse_chemical("()").is_none());
    assert!(parse_chemical("H02").is_none());
    assert!(parse_chemical("(OH)02").is_none());
    assert!(parse_chemical("H2O+").is_none());
    assert!(parse_chemical("h2").is_none());
    assert!(parse_chemical("H2o").is_none());
    assert!(parse_chemical("(OH)a").is_none());
    assert!(parse_chemical("H 2").is_none());
}

#[test]
fn parse_rejects_count_overflow() {
    assert!(parse_chemical("H99999999999999999999").is_none());
    let output = parse_chemical("H18446744073709551615").unwrap();
    assert_eq!(u64::MAX, output.count("H"));
}
