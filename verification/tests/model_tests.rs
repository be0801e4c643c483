//! Compounds, token lists, units, documents and numeric helpers.

use stoichkit::chemdraw::ChemdrawReaction;
use stoichkit::chemdraw::Molecule;
use stoichkit::chemdraw::Step;
use stoichkit::model::Compound;
use stoichkit::ratio::Frac;
use stoichkit::ratio::limit_denominator;
use stoichkit::reaction_list::InputError;
use stoichkit::reaction_list::ReactionList;
use stoichkit::reaction_list::Units;
use stoichkit::reaction_list::YieldUnits;
use stoichkit::solve::normalize_coefficients;

fn atomic(sym: &str) -> u32 {
    stoichkit::elements::Element::from_symbol(sym).unwrap().atomic_number
}

#[test]
fn parsing_the_canonical_formula_is_idempotent() {
    let c = Compound::from_formula("Ni[OC(CH3)3]2").unwrap();
    let again = Compound::from_formula(c.formula.as_str()).unwrap();
    assert_eq!(c.atoms.len(), again.atoms.len());
    for sym in ["Ni", "O", "C", "H"] {
        assert_eq!(c.atoms.get(atomic(sym)), again.atoms.get(atomic(sym)));
    }
}

#[test]
fn compound_keeps_its_formula() {
    let c = Compound::from_formula("C6H12O6").unwrap();
    assert_eq!(c.formula, "C6H12O6");
    assert_eq!(c.atoms.get(atomic("C")), 6);
    assert_eq!(c.atoms.get(atomic("H")), 12);
    assert_eq!(c.atoms.get(atomic("O")), 6);
    assert_eq!(c.atoms.get(atomic("N")), 0);
}

#[test]
fn compound_rejects_bad_formulas() {
    assert!(Compound::from_formula("C2H6)").is_err());
    assert!(Compound::from_formula("Zq3").is_err());
}

#[test]
fn reaction_list_splits_at_separator() {
    let tokens: Vec<String> = vec!["Al", "Cl2", "=", "AlCl3"]
        .into_iter()
        .map(String::from)
        .collect();
    let list = ReactionList::new(tokens);
    let (reagents, products) = list.split_reagents_products();
    assert_eq!(reagents, vec!["Al".to_string(), "Cl2".to_string()]);
    assert_eq!(products, vec!["AlCl3".to_string()]);
}

#[test]
fn reaction_list_without_separator_has_no_products() {
    let tokens: Vec<String> = vec!["Al", "Cl2"].into_iter().map(String::from).collect();
    let list = ReactionList::new(tokens);
    let (reagents, products) = list.split_reagents_products();
    assert_eq!(reagents.len(), 2);
    assert!(products.is_empty());
}

#[test]
fn reaction_list_builds_a_reaction() {
    let tokens: Vec<String> = vec!["Al", "Cl2", "=", "AlCl3"]
        .into_iter()
        .map(String::from)
        .collect();
    let rxn = ReactionList::new(tokens).reaction().unwrap();
    let balanced = rxn.balance().unwrap();
    assert_eq!(balanced.all_coefficients(), vec![2, 3, 2]);
}

#[test]
fn reaction_list_reports_parse_failures() {
    let tokens: Vec<String> = vec!["Qq", "=", "AlCl3"]
        .into_iter()
        .map(String::from)
        .collect();
    let r = ReactionList::new(tokens).reaction();
    assert!(matches!(r.unwrap_err(), InputError::Parse(_)));
}

#[test]
fn substance_tokens_carry_coefficients() {
    let rt = ReactionList::str_to_reactant("2*H2O", 0).unwrap();
    assert_eq!(rt.molar_coefficient, 2);
    assert_eq!(rt.compound.formula, "H2O");
    let plain = ReactionList::str_to_reactant("H2O", 1).unwrap();
    assert_eq!(plain.molar_coefficient, 1);
    assert!(matches!(
        ReactionList::str_to_reactant("x*H2O", 0),
        Err(InputError::InvalidCoefficient)
    ));
    assert!(matches!(
        ReactionList::str_to_reactant("*H2O", 0),
        Err(InputError::InvalidCoefficient)
    ));
    assert!(matches!(
        ReactionList::str_to_reactant("2*3*H2O", 0),
        Err(InputError::InvalidFormula)
    ));
}

#[test]
fn units_render_their_suffix() {
    assert_eq!(Units::Grams.display_string(), "g");
    assert_eq!(Units::Percent.display_string(), "%");
    assert_eq!(Units::Moles.display_string(), "mol");
}

#[test]
fn yield_units_map_to_units() {
    assert_eq!(Units::from(YieldUnits::Mass), Units::Grams);
    assert_eq!(Units::from(YieldUnits::Moles), Units::Moles);
}

#[test]
fn molecule_formula_strips_markup() {
    let m = Molecule {
        name: "dimethylamine".to_string(),
        raw_formula: "C<sub>2</sub>H<sub>7</sub>N".to_string(),
        smiles: "CNC".to_string(),
    };
    assert_eq!(m.formula(), "C2H7N");
}

#[test]
fn chemdraw_reaction_lists_formulas() {
    let reactant = Molecule {
        name: "dimethylamine".to_string(),
        raw_formula: "C<sub>2</sub>H<sub>7</sub>N".to_string(),
        smiles: "CNC".to_string(),
    };
    let product = Molecule {
        name: "methane".to_string(),
        raw_formula: "CH<sub>4</sub>".to_string(),
        smiles: "C".to_string(),
    };
    let doc = ChemdrawReaction {
        steps: vec![Step {
            reactants: vec![reactant],
            reagents: vec![],
            products: vec![product],
        }],
    };
    assert_eq!(doc.reactants(), vec!["C2H7N".to_string()]);
    assert_eq!(doc.products(), vec!["CH4".to_string()]);
    let empty = ChemdrawReaction { steps: vec![] };
    assert!(empty.reactants().is_empty());
    assert!(empty.products().is_empty());
}

#[test]
fn limit_denominator_keeps_small_fractions() {
    assert_eq!(limit_denominator(1, 3, 100), Ok((1, 3)));
    assert_eq!(limit_denominator(7, 2, 100), Ok((7, 2)));
    assert_eq!(limit_denominator(5, 1, 0), Ok((5, 1)));
}

#[test]
fn limit_denominator_caps_large_denominators() {
    // The float noise guard: 0.333333 becomes exactly one third.
    assert_eq!(limit_denominator(333333, 1000000, 100), Ok((1, 3)));
    // Archimedes' approximation of pi.
    assert_eq!(limit_denominator(3141592653589793, 1000000000000000, 100), Ok((311, 99)));
}

#[test]
fn normalization_scales_and_reduces() {
    let fracs = vec![Frac { num: 1, den: 2 }, Frac { num: -3, den: 2 }];
    assert_eq!(normalize_coefficients(&fracs).unwrap(), vec![1, 3, 2]);
    let whole = vec![Frac { num: 2, den: 1 }, Frac { num: 4, den: 1 }];
    assert_eq!(normalize_coefficients(&whole).unwrap(), vec![2, 4, 1]);
    // A denominator past the cap is replaced by the closest bounded
    // fraction, here zero.
    let tiny = vec![Frac { num: 1, den: 1000000 }];
    assert_eq!(normalize_coefficients(&tiny).unwrap(), vec![0, 1]);
}

#[test]
fn decimal_rendering_matches() {
    assert_eq!(stoichkit::numbers::u64_to_string(0), "0");
    assert_eq!(stoichkit::numbers::u64_to_string(42), "42");
    assert_eq!(stoichkit::numbers::u64_to_string(18446744073709551615), "18446744073709551615");
}

#[test]
fn gcd_and_lcm_behave() {
    assert_eq!(stoichkit::numbers::gcd_u64(12, 18), 6);
    assert_eq!(stoichkit::numbers::gcd_u64(0, 7), 7);
    assert_eq!(stoichkit::numbers::lcm_u64(4, 6), Some(12));
}

#[test]
fn limit_denominator_picks_the_closest_fraction() {
    // Among denominators up to 100, zero is closer to one millionth than
    // any other fraction is.
    assert_eq!(limit_denominator(1, 1000000, 100), Ok((0, 1)));
    // 1/3 beats every denominator up to 100 for 0.333333.
    assert_eq!(limit_denominator(333333, 1000000, 100), Ok((1, 3)));
}

#[test]
fn limit_denominator_is_idempotent_and_reduced() {
    let (p, q) = limit_denominator(3141592653589793, 1000000000000000, 100).unwrap();
    // The result is in lowest terms, so it can be fed straight back in.
    assert_eq!(limit_denominator(p, q, 100), Ok((p, q)));
    let (p2, q2) = limit_denominator(333333, 1000000, 100).unwrap();
    assert_eq!(limit_denominator(p2, q2, 100), Ok((p2, q2)));
}
