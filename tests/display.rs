use chem_balance::display::{format_chemicals, FormattedChemical};

#[test]
fn test_chem() {
    assert_eq!(
        vec![
            FormattedChemical::Text("H".into()),
            FormattedChemical::Sub("2".into()),
        ],
        format_chemicals("H2")
    );
}

#[test]
fn format_groups_and_trailing_text() {
    assert_eq!(
        vec![
            FormattedChemical::Text("Ca(OH)".into()),
            FormattedChemical::Sub("2".into()),
            FormattedChemical::Text(" + CO".into()),
            FormattedChemical::Sub("22".into()),
            FormattedChemical::Text(" = X".into()),
        ],
        format_chemicals("Ca(OH)2 + CO22 = X")
    );
}

#[test]
fn format_leading_digits_and_empty() {
    assert_eq!(
        vec![
            FormattedChemical::Text("".into()),
            FormattedChemical::Sub("2".into()),
            FormattedChemical::Text("H".into()),
        ],
        format_chemicals("2H")
    );
    assert!(format_chemicals("").is_empty());
    assert_eq!(vec![FormattedChemical::Text("NaCl".into())], format_chemicals("NaCl"));
}
