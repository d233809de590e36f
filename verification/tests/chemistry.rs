use chem_eq::chemistry::{split_caps, subscript};
use chem_eq::{Equation, IsNumber, Molecule, Token};

fn parse(s: &str) -> Equation {
    Equation::parse_str(s).expect("equation should parse")
}

#[test]
fn balanced_water_formation() {
    let eq = parse("2H2 + O2 -> 2H2O");
    assert!(eq.is_balanced());
}

#[test]
fn water_formation_counts() {
    let lhs = Equation::parse_side("2H2 + O2").unwrap();
    let counts = Equation::side_hash(&lhs);
    assert_eq!(counts.get(&"H".to_string()), 4);
    assert_eq!(counts.get(&"O".to_string()), 2);
    assert_eq!(counts.get(&"N".to_string()), 0);
    assert_eq!(counts.len(), 2);
}

#[test]
fn unbalanced_water_formation() {
    let eq = parse("H2 + O2 -> H2O");
    assert!(!eq.is_balanced());
}

#[test]
fn balanced_salt() {
    let eq = parse("Na + Cl -> NaCl");
    assert!(eq.is_balanced());
}

#[test]
fn balanced_methane_combustion() {
    let eq = parse("CH4 + 2O2 -> CO2 + 2H2O");
    assert!(eq.is_balanced());
    let rhs = Equation::parse_side("CO2 + 2H2O").unwrap();
    let counts = Equation::side_hash(&rhs);
    assert_eq!(counts.get(&"C".to_string()), 1);
    assert_eq!(counts.get(&"H".to_string()), 4);
    assert_eq!(counts.get(&"O".to_string()), 4);
}

#[test]
fn two_separators_is_too_many_sides() {
    let e = Equation::parse_str("A -> B -> C").unwrap_err();
    assert_eq!(e, "Too many sides");
}

#[test]
fn no_separator_is_too_few_sides() {
    let e = Equation::parse_str("justonething").unwrap_err();
    assert_eq!(e, "Too few sides");
}

#[test]
fn boundary_separator_counts() {
    assert_eq!(Equation::parse_str("H2 O2").unwrap_err(), "Too few sides");
    assert_eq!(Equation::parse_str("A=B=C").unwrap_err(), "Too many sides");
}

#[test]
fn all_separator_forms_are_equivalent() {
    assert!(parse("2H2 + O2 = 2H2O").is_balanced());
    assert!(parse("2H2 + O2 --> 2H2O").is_balanced());
    assert!(parse("2H2 + O2 -> 2H2O").is_balanced());
}

#[test]
fn molecule_round_trip_without_count() {
    let m = Molecule::from_string(&"Na".to_string()).unwrap();
    assert_eq!(m.to_string(), "Na");
}

#[test]
fn molecule_round_trip_count_one() {
    let m = Molecule::from_string(&"H1".to_string()).unwrap();
    assert_eq!(m.to_string(), "H");
}

#[test]
fn molecule_round_trip_with_count() {
    let m = Molecule::from_string(&"H2".to_string()).unwrap();
    assert_eq!(m.to_string(), "H₂");
    let m = Molecule::from_string(&"Na13".to_string()).unwrap();
    assert_eq!(m.to_string(), "Na₁₃");
}

#[test]
fn molecule_zero_count_defaults_to_one() {
    let m = Molecule::from_string(&"H0".to_string()).unwrap();
    assert_eq!(m.to_string(), "H");
}

#[test]
fn malformed_molecules_are_rejected() {
    assert!(Molecule::from_string(&"".to_string()).is_none());
    assert!(Molecule::from_string(&"2H".to_string()).is_none());
    assert!(Molecule::from_string(&"h2".to_string()).is_none());
    assert!(Molecule::from_string(&"H2x".to_string()).is_none());
    assert!(Molecule::from_string(&"H-".to_string()).is_none());
}

#[test]
fn molecule_count_overflow_is_rejected() {
    assert!(Molecule::from_string(&"H4294967295".to_string()).is_some());
    assert!(Molecule::from_string(&"H4294967296".to_string()).is_none());
}

#[test]
fn token_with_leading_multiplier() {
    let t = Token::from_string("2H2O".to_string()).unwrap();
    assert_eq!(t.to_string(), "2H₂O");
}

#[test]
fn token_without_multiplier() {
    let t = Token::from_string("O2".to_string()).unwrap();
    assert_eq!(t.to_string(), "O₂");
}

#[test]
fn token_trims_whitespace() {
    let t = Token::from_string("  3NaCl \t".to_string()).unwrap();
    assert_eq!(t.to_string(), "3NaCl");
}

#[test]
fn token_zero_multiplier_defaults_to_one() {
    let t = Token::from_string("0H2".to_string()).unwrap();
    assert_eq!(t.to_string(), "H₂");
}

#[test]
fn token_of_only_digits_is_an_error() {
    assert_eq!(Token::from_string("7".to_string()).unwrap_err(), "Empty term");
}

#[test]
fn token_multiplier_overflow_is_an_error() {
    let e = Token::from_string("4294967296H".to_string()).unwrap_err();
    assert_eq!(e, "Malformed fragment: 4294967296");
}

#[test]
fn malformed_fragment_error_names_the_fragment() {
    let e = Equation::parse_str("x2 -> Y").unwrap_err();
    assert_eq!(e, "Malformed fragment: x2");
    let e = Equation::parse_str("H2 +  -> H2").unwrap_err();
    assert_eq!(e, "Malformed fragment: ");
}

#[test]
fn equation_renders_canonically() {
    let eq = parse("2H2+O2=2H2O");
    assert_eq!(eq.to_string(), "2H₂ + O₂ -> 2H₂O");
}

#[test]
fn reparsing_rendered_equation_keeps_counts() {
    let eq = parse("2Na + 2Cl -> 2NaCl");
    let text = eq.to_string();
    assert_eq!(text, "2Na + 2Cl -> 2NaCl");
    let again = parse(&text);
    assert_eq!(again.to_string(), text);
    assert_eq!(eq.is_balanced(), again.is_balanced());
}

#[test]
fn term_order_does_not_change_the_verdict() {
    let a = parse("CH4 + 2O2 -> CO2 + 2H2O");
    let b = parse("2O2 + CH4 -> 2H2O + CO2");
    assert!(a.is_balanced());
    assert!(b.is_balanced());
    let c = parse("H2 + O2 -> H2O");
    let d = parse("O2 + H2 -> H2O");
    assert_eq!(c.is_balanced(), d.is_balanced());
}

#[test]
fn subscript_maps_digits_only() {
    assert_eq!(subscript('0'), Some('₀'));
    assert_eq!(subscript('5'), Some('₅'));
    assert_eq!(subscript('9'), Some('₉'));
    assert_eq!(subscript('x'), None);
    assert_eq!(subscript(' '), None);
}

#[test]
fn split_caps_cuts_before_uppercase() {
    assert_eq!(split_caps("2H2O".to_string()), vec!["2", "H2", "O"]);
    assert_eq!(split_caps("NaCl".to_string()), vec!["Na", "Cl"]);
    assert_eq!(split_caps("H".to_string()), vec!["H"]);
    assert_eq!(split_caps("".to_string()), vec![""]);
}

#[test]
fn is_num_checks_every_character() {
    assert!("123".to_string().is_num());
    assert!(!"12a".to_string().is_num());
    assert!("".to_string().is_num());
    chem_eq::cool_fn();
}

#[test]
fn missing_name_on_one_side_is_unbalanced() {
    let eq = parse("H2 + O2 -> H2");
    assert!(!eq.is_balanced());
    let eq = parse("H2 -> H2 + O2");
    assert!(!eq.is_balanced());
}

#[test]
fn large_counts_balance_exactly() {
    let eq = parse("4294967295H4294967295 -> 4294967295H4294967295");
    assert!(eq.is_balanced());
    let eq = parse("4294967295H4294967295 -> 4294967295H4294967294");
    assert!(!eq.is_balanced());
}
