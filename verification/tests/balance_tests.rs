//! Equation balancing behaviour: the original reaction suite plus the
//! general properties on concrete equations.
#![allow(non_snake_case)]

use stoichkit::model::BalanceError;
use stoichkit::model::BalancedReaction;
use stoichkit::model::Compound;
use stoichkit::model::Reactant;
use stoichkit::model::Reaction;

fn new_reaction(reagents: Vec<&str>, products: Vec<&str>) -> Result<Reaction, BalanceError> {
    let r: Vec<Compound> = reagents
        .into_iter()
        .map(|f| Compound::from_formula(f).unwrap())
        .collect();
    let p: Vec<Compound> = products
        .into_iter()
        .map(|f| Compound::from_formula(f).unwrap())
        .collect();
    Reaction::new(r, p)
}

fn expect_balanced(
    reagents: Vec<&str>,
    products: Vec<&str>,
    exp_reag: Vec<(&str, u64)>,
    exp_prod: Vec<(&str, u64)>,
) {
    let reaction = new_reaction(reagents, products).unwrap();
    let solution = reaction.balance().unwrap();
    let er: Vec<Reactant> = exp_reag
        .into_iter()
        .map(|(f, c)| Reactant::from_formula(f, c).unwrap())
        .collect();
    let ep: Vec<Reactant> = exp_prod
        .into_iter()
        .map(|(f, c)| Reactant::from_formula(f, c).unwrap())
        .collect();
    let expected = BalancedReaction::new(er, ep).unwrap();
    assert_eq!(solution, expected);
}

fn expect_coefficients(reagents: Vec<&str>, products: Vec<&str>, expected: Vec<u64>) {
    let reaction = new_reaction(reagents, products).unwrap();
    let solution = reaction.balance().unwrap();
    assert_eq!(solution.all_coefficients(), expected);
}

#[test]
fn test_AlCl3() {
    expect_balanced(
        vec!["Al", "Cl2"],
        vec!["AlCl3"],
        vec![("Al", 2), ("Cl2", 3)],
        vec![("AlCl3", 2)],
    );
}

#[test]
fn test_CO2() {
    expect_balanced(
        vec!["C6H5COOH", "O2"],
        vec!["CO2", "H2O"],
        vec![("C6H5COOH", 2), ("O2", 15)],
        vec![("CO2", 14), ("H2O", 6)],
    );
}

#[test]
fn test_KMnO4() {
    expect_balanced(
        vec!["KMnO4", "HCl"],
        vec!["KCl", "MnCl2", "H2O", "Cl2"],
        vec![("KMnO4", 2), ("HCl", 16)],
        vec![("KCl", 2), ("MnCl2", 2), ("H2O", 8), ("Cl2", 5)],
    );
}

#[test]
fn solve_test_H2O() {
    expect_balanced(
        vec!["H2", "O2"],
        vec!["H2O"],
        vec![("H2", 2), ("O2", 1)],
        vec![("H2O", 2)],
    );
}

#[test]
fn test_missing_products() {
    let rxn = new_reaction(vec!["Fe3", "Cl5"], vec!["Cl2Fe5H2O"]);
    assert!(rxn.is_err(), "Balance solution was not Err: {:?}", rxn);
}

#[test]
fn test_impossible_reaction() {
    let rxn = new_reaction(vec!["H2O", "NO2"], vec!["HNO3"]).unwrap();
    let result = rxn.balance();
    assert!(result.is_err(), "Balance solution was not Err: {:?}", result);
}

#[test]
fn test_impossible_reaction_2() {
    let rxn = new_reaction(vec!["Cu", "HNO3"], vec!["CuN2O6", "NO2", "H2O2"]).unwrap();
    let result = rxn.balance();
    assert!(result.is_err(), "Balance solution was not Err: {:?}", result);
}

#[test]
fn test_batch() {
    expect_coefficients(vec!["CO2", "H2O"], vec!["C6H12O6", "O2"], vec![6, 6, 1, 6]);
    expect_coefficients(vec!["SiCl4", "H2O"], vec!["H4SiO4", "HCl"], vec![1, 4, 1, 4]);
    expect_coefficients(vec!["Al", "HCl"], vec!["AlCl3", "H2"], vec![2, 6, 2, 3]);
    expect_coefficients(
        vec!["Na2CO3", "HCl"],
        vec!["NaCl", "H2O", "CO2"],
        vec![1, 2, 2, 1, 1],
    );
    expect_coefficients(vec!["C7H6O2", "O2"], vec!["CO2", "H2O"], vec![2, 15, 14, 6]);
    expect_coefficients(
        vec!["Fe2S3O12", "KOH"],
        vec!["K2SO4", "FeO3H3"],
        vec![1, 6, 3, 2],
    );
    expect_coefficients(
        vec!["Ca3P2O8", "SiO2"],
        vec!["P4O10", "CaSiO3"],
        vec![2, 6, 1, 6],
    );
    expect_coefficients(vec!["KClO3"], vec!["KClO4", "KCl"], vec![4, 3, 1]);
    expect_coefficients(
        vec!["Al2S3O12", "CaO2H2"],
        vec!["AlO3H3", "CaSO4"],
        vec![1, 3, 2, 3],
    );
    expect_coefficients(
        vec!["H2SO4", "HI"],
        vec!["H2S", "I2", "H2O"],
        vec![1, 8, 1, 4, 4],
    );
}

#[test]
fn conservation_error_names_the_sides() {
    let rxn = new_reaction(vec!["Fe3", "Cl5"], vec!["Cl2Fe5H2O"]);
    match rxn.unwrap_err() {
        BalanceError::Conservation {
            reactants_only,
            products_only,
        } => {
            assert!(reactants_only.is_empty());
            let mut po = products_only.clone();
            po.sort();
            // Hydrogen and oxygen appear on the product side only.
            assert_eq!(po, vec![1, 8]);
        }
        other => panic!("expected a conservation error, got {:?}", other),
    }
}

#[test]
fn balancing_twice_is_identical() {
    let rxn = new_reaction(vec!["KMnO4", "HCl"], vec!["KCl", "MnCl2", "H2O", "Cl2"]).unwrap();
    let first = rxn.balance().unwrap();
    let second = rxn.balance().unwrap();
    assert_eq!(first.all_coefficients(), second.all_coefficients());
    assert_eq!(first, second);
}

#[test]
fn coefficients_share_no_common_factor() {
    let cases: Vec<(Vec<&str>, Vec<&str>)> = vec![
        (vec!["Al", "Cl2"], vec!["AlCl3"]),
        (vec!["H2", "O2"], vec!["H2O"]),
        (vec!["KMnO4", "HCl"], vec!["KCl", "MnCl2", "H2O", "Cl2"]),
        (vec!["C6H5COOH", "O2"], vec!["CO2", "H2O"]),
    ];
    for (reagents, products) in cases {
        let rxn = new_reaction(reagents, products).unwrap();
        let solution = rxn.balance().unwrap();
        let coeffs = solution.all_coefficients();
        let gcd = coeffs
            .iter()
            .fold(0u64, |acc, &c| stoichkit::numbers::gcd_u64(acc, c));
        assert_eq!(gcd, 1);
    }
}

#[test]
fn atom_totals_agree_after_balancing() {
    let rxn = new_reaction(vec!["KMnO4", "HCl"], vec!["KCl", "MnCl2", "H2O", "Cl2"]).unwrap();
    let solution = rxn.balance().unwrap();
    let left = Reactant::element_counts(&solution.reactants).unwrap();
    let right = Reactant::element_counts(&solution.products).unwrap();
    assert_eq!(left.len(), right.len());
    for sym in ["K", "Mn", "O", "H", "Cl"] {
        let z = stoichkit::elements::Element::from_symbol(sym).unwrap().atomic_number;
        assert_eq!(left.get(z), right.get(z), "element {}", sym);
    }
}

#[test]
fn display_strings_render_coefficients() {
    let rxn = new_reaction(vec!["H2", "O2"], vec!["H2O"]).unwrap();
    let solution = rxn.balance().unwrap();
    assert_eq!(solution.display_string(false), "2 H2 + O2 = 2 H2O");
    assert_eq!(solution.display_string(true), "2 H2 + 1 O2 = 2 H2O");
}

#[test]
fn balanced_reaction_equality_ignores_order() {
    let a = BalancedReaction::new(
        vec![
            Reactant::from_formula("Al", 2).unwrap(),
            Reactant::from_formula("Cl2", 3).unwrap(),
        ],
        vec![Reactant::from_formula("AlCl3", 2).unwrap()],
    )
    .unwrap();
    let b = BalancedReaction::new(
        vec![
            Reactant::from_formula("Cl2", 3).unwrap(),
            Reactant::from_formula("Al", 2).unwrap(),
        ],
        vec![Reactant::from_formula("AlCl3", 2).unwrap()],
    )
    .unwrap();
    assert_eq!(a, b);
    let c = BalancedReaction::new(
        vec![
            Reactant::from_formula("Al", 4).unwrap(),
            Reactant::from_formula("Cl2", 6).unwrap(),
        ],
        vec![Reactant::from_formula("AlCl3", 4).unwrap()],
    )
    .unwrap();
    assert_ne!(a, c);
}

#[test]
fn unbalanced_candidate_is_rejected() {
    let r = BalancedReaction::new(
        vec![Reactant::from_formula("Al", 1).unwrap()],
        vec![Reactant::from_formula("AlCl3", 1).unwrap()],
    );
    match r.unwrap_err() {
        BalanceError::Unbalanced {
            reactant_totals,
            product_totals,
        } => {
            let al = stoichkit::elements::Element::from_symbol("Al").unwrap().atomic_number;
            let cl = stoichkit::elements::Element::from_symbol("Cl").unwrap().atomic_number;
            assert_eq!(reactant_totals.get(al), 1);
            assert_eq!(reactant_totals.get(cl), 0);
            assert_eq!(product_totals.get(al), 1);
            assert_eq!(product_totals.get(cl), 3);
        }
        other => panic!("expected an unbalanced error, got {:?}", other),
    }
}

#[test]
fn identity_reaction_balances_to_ones() {
    let rxn = new_reaction(vec!["O2"], vec!["O2"]).unwrap();
    let solution = rxn.balance().unwrap();
    assert_eq!(solution.all_coefficients(), vec![1, 1]);
    assert_eq!(solution.display_string(false), "O2 = O2");
}

#[test]
fn zero_coefficient_error_names_the_species() {
    // One product species is irrelevant to every valid solution.
    let rxn = new_reaction(vec!["Cu", "HNO3"], vec!["CuN2O6", "NO2", "H2O2"]).unwrap();
    match rxn.balance().unwrap_err() {
        BalanceError::ZeroCoefficient { formula } => {
            assert_eq!(formula, "Cu");
        }
        other => panic!("expected a zero-coefficient error, got {:?}", other),
    }
}
