use chem_balance::chemical::{parse_chemical, Chemical};
use chem_balance::reaction::{calculate_coefficients, ReactionError};

fn chems(formulas: &[&str]) -> Vec<Chemical> {
    formulas.iter().map(|f| parse_chemical(f).unwrap()).collect()
}

fn is_balanced(reagents: &[Chemical], products: &[Chemical], v: &[i64]) -> bool {
    let mut symbols: Vec<String> = Vec::new();
    for c in reagents.iter().chain(products.iter()) {
        for (s, _) in &c.parts {
            symbols.push(s.iter().collect());
        }
    }
    symbols.iter().all(|s| {
        let left: i64 = reagents.iter().zip(v).map(|(c, k)| k * c.count(s) as i64).sum();
        let right: i64 = products
            .iter()
            .zip(&v[reagents.len()..])
            .map(|(c, k)| k * c.count(s) as i64)
            .sum();
        left == right
    })
}

fn gcd(a: i64, b: i64) -> i64 {
    if b == 0 {
        a
    } else {
        gcd(b, a % b)
    }
}

#[test]
fn calculate() {
    let reagents = vec![parse_chemical("H2O").unwrap()];
    let products = vec![parse_chemical("H2").unwrap(), parse_chemical("O2").unwrap()];
    let solution = calculate_coefficients(&reagents, &products).unwrap();
    assert_eq!(vec![2, 2, 1], solution);
}

#[test]
fn calculate_complicated() {
    let reagents = vec![
        parse_chemical("C15H31COONa").unwrap(),
        parse_chemical("CaCl2").unwrap(),
    ];
    let products = vec![
        parse_chemical("(C15H31COO)2Ca").unwrap(),
        parse_chemical("NaCl").unwrap(),
    ];
    let solution = calculate_coefficients(&reagents, &products).unwrap();
    assert_eq!(vec![2, 1, 1, 2], solution);
}

#[test]
fn under_determined_is_infinite_solution() {
    let reagents = chems(&["H2", "H2"]);
    let products = chems(&["H2"]);
    assert_eq!(
        Err(ReactionError::InfiniteSolution),
        calculate_coefficients(&reagents, &products)
    );
}

#[test]
fn empty_reaction_is_infinite_solution() {
    assert_eq!(Err(ReactionError::InfiniteSolution), calculate_coefficients(&[], &[]));
}

#[test]
fn product_element_missing_from_reagents() {
    let reagents = chems(&["H2"]);
    let products = chems(&["O2"]);
    assert_eq!(
        Err(ReactionError::UnbalancedElements),
        calculate_coefficients(&reagents, &products)
    );
}

#[test]
fn zero_operand_is_arithmetic_invalid() {
    let reagents = chems(&["H2", "O2"]);
    let products = chems(&["H2"]);
    assert_eq!(
        Err(ReactionError::ArithmeticInvalid),
        calculate_coefficients(&reagents, &products)
    );
}

#[test]
fn no_balancing_solution_is_arithmetic_invalid() {
    let reagents = chems(&["H2O2"]);
    let products = chems(&["H2O"]);
    assert_eq!(
        Err(ReactionError::ArithmeticInvalid),
        calculate_coefficients(&reagents, &products)
    );
}

#[test]
fn combustion_is_balanced_and_minimal() {
    let reagents = chems(&["C3H8", "O2"]);
    let products = chems(&["CO2", "H2O"]);
    let v = calculate_coefficients(&reagents, &products).unwrap();
    assert_eq!(vec![1, 5, 3, 4], v);
    assert!(is_balanced(&reagents, &products, &v));
}

#[test]
fn solutions_balance_and_are_minimal() {
    let cases: [(&[&str], &[&str]); 5] = [
        (&["H2O"], &["H2", "O2"]),
        (&["Fe", "O2"], &["Fe2O3"]),
        (&["C6H12O6", "O2"], &["CO2", "H2O"]),
        (&["Al", "O2"], &["Al2O3"]),
        (&["Ca(OH)2", "H3PO4"], &["Ca3(PO4)2", "H2O"]),
    ];
    for (r, p) in cases {
        let reagents = chems(r);
        let products = chems(p);
        let v = calculate_coefficients(&reagents, &products).unwrap();
        assert_eq!(r.len() + p.len(), v.len());
        assert!(v.iter().all(|&k| k >= 1));
        assert!(is_balanced(&reagents, &products, &v));
        assert_eq!(1, v.iter().fold(0, |g, &k| gcd(g, k)));
    }
}

#[test]
fn iron_oxide_coefficients() {
    let v = calculate_coefficients(&chems(&["Fe", "O2"]), &chems(&["Fe2O3"])).unwrap();
    assert_eq!(vec![4, 3, 2], v);
}
