//! Formula parser behaviour: token handling, groups, hydrates, errors.

use stoichkit::counts::ElementCounts;
use stoichkit::elements::Element;
use stoichkit::parse::ParseError;
use stoichkit::parse::parse_formula;

fn atomic(sym: &str) -> u32 {
    Element::from_symbol(sym).unwrap().atomic_number
}

fn assert_counts(m: &ElementCounts, expected: &[(&str, u64)]) {
    assert_eq!(m.len(), expected.len());
    for (sym, count) in expected {
        assert_eq!(m.get(atomic(sym)), *count, "count for {}", sym);
    }
}

#[test]
fn parse_ethane() {
    let formula = "C2H6";
    let result = parse_formula(formula).ok().unwrap();
    assert_counts(&result, &[("C", 2), ("H", 6)]);
}

#[test]
fn mod_ethane() {
    let formula = "C2H6";
    let result = parse_formula(formula).ok().unwrap();
    assert_counts(&result, &[("C", 2), ("H", 6)]);
}

#[test]
fn parse_nickel_tert_butoxide() {
    let formula = "Ni[OC(CH3)3]2";
    let result = parse_formula(formula).ok().unwrap();
    assert_counts(&result, &[("Ni", 1), ("O", 2), ("C", 8), ("H", 18)]);
}

#[test]
fn mod_nickel_tert_butoxide() {
    let formula = "Ni[OC(CH3)3]2";
    let result = parse_formula(formula).ok().unwrap();
    assert_counts(&result, &[("Ni", 1), ("O", 2), ("C", 8), ("H", 18)]);
}

#[test]
fn parse_missing_open_bracket() {
    let formula = "(C2H3)3)";
    let result = parse_formula(formula);
    assert!(result.is_err(), "{:?}", result.ok());
}

#[test]
fn mod_missing_open_bracket() {
    let formula = "(C2H3)3)";
    let result = parse_formula(formula);
    assert!(result.is_err(), "{:?}", result.ok());
}

#[test]
fn parse_mismatched_bracket_types() {
    let formula: &str = "{C2H6)12";
    let result = parse_formula(formula).ok().unwrap();
    assert_counts(&result, &[("C", 24), ("H", 72)]);
}

#[test]
fn mod_mismatched_bracket_types() {
    let formula: &str = "{C2H6)12";
    let result = parse_formula(formula).ok().unwrap();
    assert_counts(&result, &[("C", 24), ("H", 72)]);
}

#[test]
fn parse_invalid_symbol() {
    let formula: &str = "CkCoNv30";
    let result = parse_formula(formula);
    assert!(result.is_err());
}

#[test]
fn mod_invalid_symbol() {
    let formula: &str = "CkCoNv30";
    let result = parse_formula(formula);
    assert!(result.is_err());
}

#[test]
fn parse_invalid_string() {
    let formula: &str = "30k";
    let result = parse_formula(formula);
    assert!(result.is_err());
}

#[test]
fn mod_invalid_string() {
    let formula: &str = "30k";
    let result = parse_formula(formula);
    assert!(result.is_err());
}

#[test]
fn v2_test_H2O() {
    let formula = "H2O";
    let map = parse_formula(formula).unwrap();
    assert_counts(&map, &[("H", 2), ("O", 1)]);
}

#[test]
fn test_multi_group() {
    let formula = "H2(SO4)2";
    let map = parse_formula(formula).unwrap();
    assert_counts(&map, &[("H", 2), ("S", 2), ("O", 8)]);
}

#[test]
fn test_hydrate() {
    let formula = "H2(SO4)2*6H2O";
    let map = parse_formula(formula).unwrap();
    assert_counts(&map, &[("H", 14), ("S", 2), ("O", 14)]);
}

#[test]
fn test_organic() {
    let formula = "C6H5COOH";
    let map = parse_formula(formula).unwrap();
    assert_counts(&map, &[("C", 7), ("H", 6), ("O", 2)]);
}

#[test]
fn test_brackets() {
    let formula = "H2[SO4]2";
    let map = parse_formula(formula).unwrap();
    assert_counts(&map, &[("H", 2), ("S", 2), ("O", 8)]);
}

#[test]
fn test_curly_brace() {
    let formula = "H2{SO4}2";
    let map = parse_formula(formula).unwrap();
    assert_counts(&map, &[("H", 2), ("S", 2), ("O", 8)]);
}

#[test]
fn unclosed_group_is_error() {
    let result = parse_formula("((C2H3)3");
    assert_eq!(result.unwrap_err(), ParseError::UnclosedGroup);
}

#[test]
fn unmatched_closing_is_error() {
    let result = parse_formula(")H2O");
    assert_eq!(result.unwrap_err(), ParseError::UnmatchedClosing);
}

#[test]
fn bare_hydrate_counts_water() {
    let map = parse_formula("*H2O").unwrap();
    assert_counts(&map, &[("H", 2), ("O", 1)]);
}

#[test]
fn hydrate_default_multiplier() {
    let map = parse_formula("CuSO4*H2O").unwrap();
    assert_counts(&map, &[("Cu", 1), ("S", 1), ("O", 5), ("H", 2)]);
}

#[test]
fn invalid_hydrate_is_error() {
    assert_eq!(parse_formula("Na*Cl").unwrap_err(), ParseError::InvalidHydrate);
}

#[test]
fn trailing_input_after_hydrate_is_error() {
    assert_eq!(parse_formula("H2(SO4)2*6H2O2").unwrap_err(), ParseError::TrailingInput);
}

#[test]
fn oversized_multiplier_is_error() {
    assert_eq!(
        parse_formula("H99999999999999999999999").unwrap_err(),
        ParseError::Overflow
    );
}

#[test]
fn empty_formula_parses_to_nothing() {
    let map = parse_formula("").unwrap();
    assert_eq!(map.len(), 0);
}

#[test]
fn lowercase_start_is_invalid_symbol() {
    assert_eq!(parse_formula("h2O").unwrap_err(), ParseError::InvalidSymbol);
}

#[test]
fn element_lookup_by_symbol() {
    let e = Element::from_symbol("Fe").unwrap();
    assert_eq!(e.atomic_number, 26);
    assert_eq!(e.symbol, "Fe");
    assert!(Element::from_symbol("Xx").is_none());
}

#[test]
fn element_lookup_by_id() {
    let e = stoichkit::get_element_by_id(8).unwrap();
    assert_eq!(e.symbol, "O");
    assert!(stoichkit::get_element_by_id(0).is_err());
    assert!(stoichkit::get_element_by_id(200).is_err());
}

#[test]
fn zero_multiplier_stores_nothing() {
    let map = parse_formula("H0O").unwrap();
    assert_eq!(map.len(), 1);
    assert_eq!(map.get(atomic("H")), 0);
    assert_eq!(map.get(atomic("O")), 1);
    let group = parse_formula("(H2)0O").unwrap();
    assert_eq!(group.len(), 1);
    assert_eq!(group.get(atomic("H")), 0);
    assert_eq!(group.get(atomic("O")), 1);
}

#[test]
fn element_table_round_trips() {
    for z in 1u8..=118 {
        let e = stoichkit::get_element_by_id(z).unwrap();
        let back = Element::from_symbol(e.symbol.as_str()).unwrap();
        assert_eq!(back.atomic_number, z as u32);
    }
}
