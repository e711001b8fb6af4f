use chem_balance::equation::{parse_equation, EquationError};
use chem_balance::reaction::calculate_coefficients;

#[test]
fn equation_splits_sides_and_formulas() {
    let (reagents, products) = parse_equation("H2O = H2 + O2").unwrap();
    assert_eq!(1, reagents.len());
    assert_eq!(2, products.len());
    assert_eq!("H2O", reagents[0].display);
    assert_eq!("H2", products[0].display);
    assert_eq!("O2", products[1].display);
    assert_eq!(1, reagents[0].count("O"));
}

#[test]
fn equation_without_equals_sign() {
    assert_eq!(Some(EquationError::MissingEqualsSign), parse_equation("H2O + H2").err());
    assert_eq!(Some(EquationError::MissingEqualsSign), parse_equation("").err());
}

#[test]
fn equation_with_malformed_formula() {
    assert_eq!(
        Some(EquationError::ParseFailure(" o2".to_string())),
        parse_equation("H2O = H2 + o2").err()
    );
    assert_eq!(
        Some(EquationError::ParseFailure(" B = C".to_string())),
        parse_equation("A = B = C").err()
    );
}

#[test]
fn equation_with_empty_formula() {
    let (reagents, products) = parse_equation("H2 + = H2").unwrap();
    assert_eq!(2, reagents.len());
    assert_eq!("", reagents[1].display);
    assert_eq!(0, reagents[1].parts.len());
    assert_eq!(1, products.len());
}

#[test]
fn equation_balances_end_to_end() {
    let (reagents, products) = parse_equation("  Fe+O2=Fe2O3 ").unwrap();
    assert_eq!("Fe", reagents[0].display);
    assert_eq!("Fe2O3", products[0].display);
    assert_eq!(Ok(vec![4, 3, 2]), calculate_coefficients(&reagents, &products));
}
