//! The chemical model: compounds, reaction sides, and balanced reactions.
//!
//! A `Compound` is a formula string together with the atom counts its
//! successful parse produced; a `Reactant` is a compound with a molar
//! coefficient; a `BalancedReaction` can only be built when the exact
//! integer atom totals of the two sides agree, element by element.

use vstd::prelude::*;

use crate::counts::ElementCounts;
use crate::counts::count_of;
use crate::counts::lemma_merge_count;
use crate::counts::spec_merge;
use crate::parse::ParseError;
use crate::parse::parse_formula;
use crate::parse::spec_parse;
use crate::numbers::dec_str;
use crate::numbers::gcd_seq;
use crate::numbers::u64_to_string;
use crate::solve::NormalizeError;
use crate::solve::SolveError;

verus! {

/// Why a reaction could not be balanced.
#[derive(Debug, Clone, PartialEq, Eq)]
pub enum BalanceError {
    /// Elements that appear on one side only (atomic numbers, listed for
    /// the side that has them).
    Conservation { reactants_only: Vec<u32>, products_only: Vec<u32> },
    /// The linear system has no solution.
    Solve(SolveError),
    /// Exact integer coefficients could not be built.
    Normalize(NormalizeError),
    /// A species solved to a zero coefficient, so the system is not
    /// well-posed as given; the offending species' formula is named.
    ZeroCoefficient { formula: String },
    /// The final integer recheck found unequal atom totals; both sides'
    /// totals are reported.
    Unbalanced { reactant_totals: ElementCounts, product_totals: ElementCounts },
}

/// A chemical compound: its formula and the atom counts the formula parses
/// to.
#[derive(Debug, Clone)]
pub struct Compound {
    pub formula: String,
    pub atoms: ElementCounts,
}

impl Compound {
    /// The atom counts are exactly what the stored formula parses to.
    pub open spec fn wf(&self) -> bool {
        &&& self.atoms.wf()
        &&& spec_parse(self.formula@) == Ok::<Map<u32, u64>, ParseError>(self.atoms@)
    }

    /// Builds a compound by parsing its formula.
    pub fn from_formula(formula: &str) -> (r: Result<Compound, ParseError>)
        ensures
            match r {
                Ok(c) => c.wf() && c.formula@ == formula@ && spec_parse(formula@) == Ok::<
                    Map<u32, u64>,
                    ParseError,
                >(c.atoms@),
                Err(e) => spec_parse(formula@) == Err::<Map<u32, u64>, ParseError>(e),
            },
    {
        Compound::new(formula)
    }

    /// Builds a compound by parsing its formula.
    pub fn new(formula: &str) -> (r: Result<Compound, ParseError>)
        ensures
            match r {
                Ok(c) => c.wf() && c.formula@ == formula@ && spec_parse(formula@) == Ok::<
                    Map<u32, u64>,
                    ParseError,
                >(c.atoms@),
                Err(e) => spec_parse(formula@) == Err::<Map<u32, u64>, ParseError>(e),
            },
    {
        match parse_formula(formula) {
            Ok(atoms) => Ok(Compound { formula: formula.to_owned(), atoms }),
            Err(e) => Err(e),
        }
    }

    /// The atomic numbers of the elements in this compound, one each.
    pub fn all_elements(&self) -> (r: Vec<u32>)
        requires
            self.atoms.wf(),
        ensures
            forall|i: int, j: int| 0 <= i < j < r@.len() ==> r@[i] != r@[j],
            forall|i: int| 0 <= i < r@.len() ==> self.atoms@.dom().contains(#[trigger] r@[i]),
            forall|z: u32|
                self.atoms@.dom().contains(z) ==> seq_has(r@, z),
    {
        proof {
            self.atoms.lemma_view_entries();
        }
        let count = self.atoms.entry_count();
        let mut r: Vec<u32> = Vec::new();
        let mut i: usize = 0;
        while i < count
            invariant
                self.atoms.wf(),
                count == self.atoms.entries_view().len(),
                crate::counts::distinct_keys(self.atoms.entries_view()),
                forall|t: int|
                    0 <= t < self.atoms.entries_view().len() ==> self.atoms@.dom().contains(
                        #[trigger] self.atoms.entries_view()[t].0,
                    ),
                0 <= i <= count,
                r@.len() == i,
                forall|t: int| 0 <= t < i ==> r@[t] == self.atoms.entries_view()[t].0,
            decreases count - i,
        {
            let e = self.atoms.entry_at(i);
            r.push(e.0);
            i = i + 1;
        }
        proof {
            self.atoms.lemma_view_entries();
            assert forall|z: u32| self.atoms@.dom().contains(z) implies exists|t: int|
                0 <= t < r@.len() && r@[t] == z by {
                let t = choose|t: int|
                    0 <= t < self.atoms.entries_view().len() && self.atoms.entries_view()[t].0
                        == z;
                assert(r@[t] == z);
            }
        }
        r
    }
}

/// One species of a reaction side: a compound and its molar coefficient.
#[derive(Debug, Clone)]
pub struct Reactant {
    pub compound: Compound,
    pub molar_coefficient: u64,
}

/// The total number of atoms of element `z` on a side, weighted by molar
/// coefficients.
pub open spec fn side_total(rs: Seq<Reactant>, z: u32) -> int
    decreases rs.len(),
{
    if rs.len() == 0 {
        0
    } else {
        side_total(rs.drop_last(), z) + rs.last().molar_coefficient * count_of(
            rs.last().compound.atoms@,
            z,
        )
    }
}

/// Whether every element's total on a side fits the count type.
pub open spec fn side_fits(rs: Seq<Reactant>) -> bool {
    forall|z: u32| side_total(rs, z) <= u64::MAX
}

/// Conservation: both sides carry the same atom total for every element.
pub open spec fn is_balanced(reactants: Seq<Reactant>, products: Seq<Reactant>) -> bool {
    forall|z: u32| side_total(reactants, z) == side_total(products, z)
}

/// Side totals never shrink when more species are appended.
proof fn lemma_side_total_prefix(rs: Seq<Reactant>, i: int, z: u32)
    requires
        0 <= i <= rs.len(),
    ensures
        side_total(rs.take(i), z) <= side_total(rs, z),
    decreases rs.len() - i,
{
    if i == rs.len() {
        assert(rs.take(i) == rs);
    } else {
        lemma_side_total_prefix(rs, i + 1, z);
        assert(rs.take(i + 1).drop_last() == rs.take(i));
        assert(rs.take(i + 1).last() == rs[i]);
        assert(rs[i].molar_coefficient * count_of(rs[i].compound.atoms@, z) >= 0)
            by (nonlinear_arith)
            requires
                rs[i].molar_coefficient >= 0,
                count_of(rs[i].compound.atoms@, z) >= 0,
        ;
    }
}

impl Reactant {
    /// Pairs a compound with its coefficient.
    pub fn of_compound(compound: Compound, coefficient: u64) -> (r: Reactant)
        ensures
            r.compound == compound,
            r.molar_coefficient == coefficient,
    {
        Reactant { compound, molar_coefficient: coefficient }
    }

    /// Parses a formula and pairs the compound with a coefficient.
    pub fn from_formula(formula: &str, coefficient: u64) -> (r: Result<Reactant, ParseError>)
        ensures
            match r {
                Ok(rt) => rt.compound.wf() && rt.compound.formula@ == formula@
                    && rt.molar_coefficient == coefficient,
                Err(e) => spec_parse(formula@) == Err::<Map<u32, u64>, ParseError>(e),
            },
    {
        match Compound::from_formula(formula) {
            Ok(c) => Ok(Reactant { compound: c, molar_coefficient: coefficient }),
            Err(e) => Err(e),
        }
    }

    /// Sums the atom counts of a whole side, each compound weighted by its
    /// coefficient; reports overflow when a total does not fit. The result
    /// has an entry for exactly the elements whose total is positive.
    pub fn element_counts(reactants: &Vec<Reactant>) -> (r: Result<ElementCounts, NormalizeError>)
        requires
            forall|i: int| 0 <= i < reactants@.len() ==> (#[trigger] reactants@[i]).compound.atoms.wf(),
        ensures
            match r {
                Ok(m) => m.wf() && side_fits(reactants@) && (forall|z: u32|
                    count_of(m@, z) == side_total(reactants@, z)) && (forall|z: u32|
                    #[trigger] m@.dom().contains(z) <==> side_total(reactants@, z) >= 1),
                Err(_) => !side_fits(reactants@),
            },
    {
        let mut acc = ElementCounts::new();
        let mut i: usize = 0;
        while i < reactants.len()
            invariant
                forall|t: int|
                    0 <= t < reactants@.len() ==> (#[trigger] reactants@[t]).compound.atoms.wf(),
                0 <= i <= reactants@.len(),
                acc.wf(),
                forall|z: u32| count_of(acc@, z) == side_total(reactants@.take(i as int), z),
            decreases reactants@.len() - i,
        {
            let ghost pre = acc@;
            let coef = reactants[i].molar_coefficient;
            match acc.add_scaled(&reactants[i].compound.atoms, coef) {
                Ok(()) => {
                    proof {
                        assert(reactants@.take(i as int + 1).drop_last() == reactants@.take(
                            i as int,
                        ));
                        assert(reactants@.take(i as int + 1).last() == reactants@[i as int]);
                        assert forall|z: u32|
                            count_of(acc@, z) == side_total(
                                reactants@.take(i as int + 1),
                                z,
                            ) by {
                            lemma_merge_count(
                                pre,
                                reactants@[i as int].compound.atoms@,
                                coef as int,
                                z,
                            );
                        }
                    }
                },
                Err(()) => {
                    proof {
                        let z = choose|z: u32|
                            reactants@[i as int].compound.atoms@.dom().contains(z) && count_of(
                                pre,
                                z,
                            ) + (coef as int) * count_of(reactants@[i as int].compound.atoms@, z)
                                > u64::MAX;
                        assert(reactants@.take(i as int + 1).drop_last() == reactants@.take(
                            i as int,
                        ));
                        assert(reactants@.take(i as int + 1).last() == reactants@[i as int]);
                        assert(side_total(reactants@.take(i as int + 1), z) > u64::MAX);
                        lemma_side_total_prefix(reactants@, i as int + 1, z);
                    }
                    return Err(NormalizeError::Overflow);
                },
            }
            i = i + 1;
        }
        proof {
            assert(reactants@.take(reactants@.len() as int) == reactants@);
            assert forall|z: u32| side_total(reactants@, z) <= u64::MAX by {
                assert(count_of(acc@, z) == side_total(reactants@, z));
            }
            acc.lemma_view_entries();
            assert forall|z: u32| #[trigger] acc@.dom().contains(z) <==> side_total(
                reactants@,
                z,
            ) >= 1 by {
                assert(count_of(acc@, z) == side_total(reactants@, z));
            }
        }
        Ok(acc)
    }
}

/// Compares two counts as maps.
fn counts_equal(a: &ElementCounts, b: &ElementCounts) -> (r: bool)
    requires
        a.wf(),
        b.wf(),
    ensures
        r == (forall|z: u32| count_of(a@, z) == count_of(b@, z)),
{
    proof {
        a.lemma_view_entries();
        b.lemma_view_entries();
    }
    let na = a.entry_count();
    let nb = b.entry_count();
    let mut i: usize = 0;
    while i < na
        invariant
            a.wf(),
            b.wf(),
            na == a.entries_view().len(),
            0 <= i <= na,
            forall|t: int|
                0 <= t < a.entries_view().len() ==> a@.dom().contains(
                    #[trigger] a.entries_view()[t].0,
                ) && a@[a.entries_view()[t].0] == a.entries_view()[t].1,
            forall|t: int| 0 <= t < i ==> count_of(a@, (#[trigger] a.entries_view()[t]).0) == count_of(
                b@,
                a.entries_view()[t].0,
            ),
        decreases na - i,
    {
        let e = a.entry_at(i);
        if b.get(e.0) != e.1 {
            return false;
        }
        i = i + 1;
    }
    let mut j: usize = 0;
    while j < nb
        invariant
            a.wf(),
            b.wf(),
            nb == b.entries_view().len(),
            0 <= j <= nb,
            forall|t: int|
                0 <= t < b.entries_view().len() ==> b@.dom().contains(
                    #[trigger] b.entries_view()[t].0,
                ) && b@[b.entries_view()[t].0] == b.entries_view()[t].1,
            forall|t: int| 0 <= t < j ==> count_of(b@, (#[trigger] b.entries_view()[t]).0) == count_of(
                a@,
                b.entries_view()[t].0,
            ),
        decreases nb - j,
    {
        let e = b.entry_at(j);
        if a.get(e.0) != e.1 {
            return false;
        }
        j = j + 1;
    }
    proof {
        a.lemma_view_entries();
        b.lemma_view_entries();
        assert forall|z: u32| count_of(a@, z) == count_of(b@, z) by {
            if a@.dom().contains(z) {
                let t = choose|t: int|
                    0 <= t < a.entries_view().len() && a.entries_view()[t].0 == z;
                assert(count_of(a@, (a.entries_view()[t]).0) == count_of(b@, a.entries_view()[t].0));
            } else if b@.dom().contains(z) {
                let t = choose|t: int|
                    0 <= t < b.entries_view().len() && b.entries_view()[t].0 == z;
                assert(count_of(b@, (b.entries_view()[t]).0) == count_of(a@, b.entries_view()[t].0));
            }
        }
    }
    true
}

/// A reaction whose integer coefficients conserve every element.
#[derive(Debug, Clone)]
pub struct BalancedReaction {
    pub reactants: Vec<Reactant>,
    pub products: Vec<Reactant>,
}

impl BalancedReaction {
    /// Conservation holds: the construction re-checked it with exact
    /// integer arithmetic.
    pub open spec fn wf(&self) -> bool {
        is_balanced(self.reactants@, self.products@)
    }

    /// Accepts the candidate coefficients only when the exact integer atom
    /// totals of the two sides agree for every element. This recheck is
    /// the authoritative conservation contract of the whole balancer.
    pub fn new(reactants: Vec<Reactant>, products: Vec<Reactant>) -> (r: Result<
        BalancedReaction,
        BalanceError,
    >)
        requires
            forall|i: int| 0 <= i < reactants@.len() ==> (#[trigger] reactants@[i]).compound.atoms.wf(),
            forall|i: int| 0 <= i < products@.len() ==> (#[trigger] products@[i]).compound.atoms.wf(),
        ensures
            match r {
                Ok(br) => {
                    &&& br.wf()
                    &&& is_balanced(reactants@, products@)
                    &&& br.reactants == reactants
                    &&& br.products == products
                },
                Err(e) => {
                    &&& !(is_balanced(reactants@, products@) && side_fits(reactants@) && side_fits(
                        products@,
                    ))
                    &&& (e matches BalanceError::Unbalanced { reactant_totals, product_totals }
                        ==> !is_balanced(reactants@, products@) && (forall|z: u32|
                        count_of(reactant_totals@, z) == side_total(reactants@, z)) && (
                    forall|z: u32| count_of(product_totals@, z) == side_total(products@, z)))
                    &&& (e matches BalanceError::Unbalanced { .. } || e matches
                        BalanceError::Normalize(_))
                },
            },
    {
        let react_elems = match Reactant::element_counts(&reactants) {
            Ok(m) => m,
            Err(e) => {
                return Err(BalanceError::Normalize(e));
            },
        };
        let prod_elems = match Reactant::element_counts(&products) {
            Ok(m) => m,
            Err(e) => {
                return Err(BalanceError::Normalize(e));
            },
        };
        if counts_equal(&react_elems, &prod_elems) {
            Ok(BalancedReaction { reactants, products })
        } else {
            Err(
                BalanceError::Unbalanced {
                    reactant_totals: react_elems,
                    product_totals: prod_elems,
                },
            )
        }
    }

    /// Every coefficient of the reaction, reactants first.
    pub fn all_coefficients(&self) -> (r: Vec<u64>)
        ensures
            r@ == coefficient_seq(self.reactants@, self.products@),
    {
        let mut r: Vec<u64> = Vec::new();
        let mut i: usize = 0;
        while i < self.reactants.len()
            invariant
                0 <= i <= self.reactants@.len(),
                r@.len() == i,
                forall|t: int| 0 <= t < i ==> r@[t] == self.reactants@[t].molar_coefficient,
            decreases self.reactants@.len() - i,
        {
            r.push(self.reactants[i].molar_coefficient);
            i = i + 1;
        }
        let mut j: usize = 0;
        while j < self.products.len()
            invariant
                0 <= j <= self.products@.len(),
                r@.len() == self.reactants@.len() + j,
                forall|t: int|
                    0 <= t < self.reactants@.len() ==> r@[t]
                        == self.reactants@[t].molar_coefficient,
                forall|t: int|
                    0 <= t < j ==> r@[self.reactants@.len() + t]
                        == self.products@[t].molar_coefficient,
            decreases self.products@.len() - j,
        {
            r.push(self.products[j].molar_coefficient);
            j = j + 1;
        }
        proof {
            assert(r@ =~= coefficient_seq(self.reactants@, self.products@));
        }
        r
    }
}

/// How one species renders: its coefficient, a space, and the formula;
/// a coefficient of one is omitted unless the display is explicit.
pub open spec fn format_str(r: Reactant, explicit: bool) -> Seq<char> {
    if r.molar_coefficient != 1 || explicit {
        dec_str(r.molar_coefficient as int) + seq![' '] + r.compound.formula@
    } else {
        r.compound.formula@
    }
}

/// How one side renders: the species joined by `" + "`.
pub open spec fn side_str(rs: Seq<Reactant>, explicit: bool) -> Seq<char>
    decreases rs.len(),
{
    if rs.len() == 0 {
        Seq::empty()
    } else if rs.len() == 1 {
        format_str(rs[0], explicit)
    } else {
        side_str(rs.drop_last(), explicit) + " + "@ + format_str(rs.last(), explicit)
    }
}

/// The first coefficient stored for a formula on a side, if any: two
/// balanced reactions are the same when each formula's first coefficient
/// agrees on both sides, whatever the order of the species.
pub open spec fn first_coef(rs: Seq<Reactant>, k: Seq<char>) -> Option<u64>
    decreases rs.len(),
{
    if rs.len() == 0 {
        None
    } else if rs.first().compound.formula@ == k {
        Some(rs.first().molar_coefficient)
    } else {
        first_coef(rs.drop_first(), k)
    }
}

/// Order-independent equality of sides: the formula-to-coefficient maps
/// agree.
pub open spec fn sides_match(a: Seq<Reactant>, b: Seq<Reactant>) -> bool {
    forall|k: Seq<char>| #[trigger] first_coef(a, k) == first_coef(b, k)
}

/// A side holds a coefficient for `k` exactly when some species spells `k`.
proof fn lemma_first_coef_some(rs: Seq<Reactant>, k: Seq<char>)
    ensures
        first_coef(rs, k) is Some <==> exists|i: int|
            0 <= i < rs.len() && (#[trigger] rs[i]).compound.formula@ == k,
    decreases rs.len(),
{
    if rs.len() > 0 {
        lemma_first_coef_some(rs.drop_first(), k);
        if rs.first().compound.formula@ == k {
            assert(rs[0].compound.formula@ == k);
        } else {
            if first_coef(rs, k) is Some {
                let i = choose|i: int|
                    0 <= i < rs.drop_first().len() && (#[trigger] rs.drop_first()[i]).compound.formula@ == k;
                assert(rs[i + 1].compound.formula@ == k);
            }
            if exists|i: int| 0 <= i < rs.len() && (#[trigger] rs[i]).compound.formula@ == k {
                let i = choose|i: int|
                    0 <= i < rs.len() && (#[trigger] rs[i]).compound.formula@ == k;
                assert(i >= 1);
                assert(rs.drop_first()[i - 1].compound.formula@ == k);
            }
        }
    }
}

/// Looks up the first coefficient stored for a formula.
fn lookup_first(v: &Vec<Reactant>, key: &String) -> (r: Option<u64>)
    ensures
        r == first_coef(v@, key@),
{
    let n = v.len();
    let mut j: usize = 0;
    proof {
        assert(v@.skip(0) =~= v@);
    }
    while j < n
        invariant
            n == v@.len(),
            0 <= j <= n,
            first_coef(v@, key@) == first_coef(v@.skip(j as int), key@),
        decreases n - j,
    {
        proof {
            assert(v@.skip(j as int).first() == v@[j as int]);
            assert(v@.skip(j as int).drop_first() =~= v@.skip(j as int + 1));
        }
        if v[j].compound.formula == *key {
            return Some(v[j].molar_coefficient);
        }
        j = j + 1;
    }
    proof {
        assert(v@.skip(n as int).len() == 0);
    }
    None
}

/// Every formula of `a` carries the same first coefficient in `b`.
fn side_covered(a: &Vec<Reactant>, b: &Vec<Reactant>) -> (r: bool)
    ensures
        r == forall|i: int|
            0 <= i < a@.len() ==> first_coef(a@, (#[trigger] a@[i]).compound.formula@)
                == first_coef(b@, a@[i].compound.formula@),
{
    let n = a.len();
    let mut i: usize = 0;
    while i < n
        invariant
            n == a@.len(),
            0 <= i <= n,
            forall|t: int|
                0 <= t < i ==> first_coef(a@, (#[trigger] a@[t]).compound.formula@) == first_coef(
                    b@,
                    a@[t].compound.formula@,
                ),
        decreases n - i,
    {
        let fa = lookup_first(a, &a[i].compound.formula);
        let fb = lookup_first(b, &a[i].compound.formula);
        let same = match (fa, fb) {
            (Some(x), Some(y)) => x == y,
            (None, None) => true,
            _ => false,
        };
        if !same {
            return false;
        }
        i = i + 1;
    }
    true
}

/// Whether two sides carry the same formula-to-coefficient map.
fn sides_equal(a: &Vec<Reactant>, b: &Vec<Reactant>) -> (r: bool)
    ensures
        r == sides_match(a@, b@),
{
    let ab = side_covered(a, b);
    let ba = side_covered(b, a);
    if ab && ba {
        proof {
            assert forall|k: Seq<char>| #[trigger] first_coef(a@, k) == first_coef(b@, k) by {
                lemma_first_coef_some(a@, k);
                lemma_first_coef_some(b@, k);
                if first_coef(a@, k) is Some {
                    let i = choose|i: int|
                        0 <= i < a@.len() && (#[trigger] a@[i]).compound.formula@ == k;
                    assert(first_coef(a@, a@[i].compound.formula@) == first_coef(
                        b@,
                        a@[i].compound.formula@,
                    ));
                } else if first_coef(b@, k) is Some {
                    let i = choose|i: int|
                        0 <= i < b@.len() && (#[trigger] b@[i]).compound.formula@ == k;
                    assert(first_coef(b@, b@[i].compound.formula@) == first_coef(
                        a@,
                        b@[i].compound.formula@,
                    ));
                }
            }
        }
        true
    } else {
        proof {
            if sides_match(a@, b@) {
                assert forall|i: int|
                    0 <= i < a@.len() implies first_coef(
                    a@,
                    (#[trigger] a@[i]).compound.formula@,
                ) == first_coef(b@, a@[i].compound.formula@) by {
                    assert(first_coef(a@, a@[i].compound.formula@) == first_coef(
                        b@,
                        a@[i].compound.formula@,
                    ));
                }
                assert forall|i: int|
                    0 <= i < b@.len() implies first_coef(
                    b@,
                    (#[trigger] b@[i]).compound.formula@,
                ) == first_coef(a@, b@[i].compound.formula@) by {
                    assert(first_coef(a@, b@[i].compound.formula@) == first_coef(
                        b@,
                        b@[i].compound.formula@,
                    ));
                }
            }
        }
        false
    }
}

impl PartialEq for BalancedReaction {
    /// Two balanced reactions are equal when each side's
    /// formula-to-coefficient map agrees, whatever the order of species.
    fn eq(&self, other: &Self) -> (r: bool) {
        sides_equal(&self.reactants, &other.reactants) && sides_equal(
            &self.products,
            &other.products,
        )
    }
}

impl vstd::std_specs::cmp::PartialEqSpecImpl for BalancedReaction {
    open spec fn obeys_eq_spec() -> bool {
        true
    }

    open spec fn eq_spec(&self, other: &BalancedReaction) -> bool {
        sides_match(self.reactants@, other.reactants@) && sides_match(
            self.products@,
            other.products@,
        )
    }
}

impl Reactant {
    /// Renders the species: the coefficient, a space, and the formula; a
    /// coefficient of one is shown only in explicit mode.
    pub fn format(&self, explicit: bool) -> (r: String)
        ensures
            r@ == format_str(*self, explicit),
    {
        if self.molar_coefficient != 1 || explicit {
            proof {
                reveal_strlit(" ");
            }
            let mut s = u64_to_string(self.molar_coefficient);
            s.append(" ");
            s.append(self.compound.formula.as_str());
            proof {
                assert(s@ =~= format_str(*self, explicit));
            }
            s
        } else {
            self.compound.formula.clone()
        }
    }
}

impl BalancedReaction {
    /// Renders one side: the species joined by `" + "`.
    fn side_display_string(side: &Vec<Reactant>, explicit: bool) -> (r: String)
        ensures
            r@ == side_str(side@, explicit),
    {
        let n = side.len();
        let mut s = String::new();
        let mut i: usize = 0;
        while i < n
            invariant
                n == side@.len(),
                0 <= i <= n,
                s@ == side_str(side@.take(i as int), explicit),
            decreases n - i,
        {
            let piece = side[i].format(explicit);
            if i > 0 {
                s.append(" + ");
            }
            s.append(piece.as_str());
            proof {
                assert(side@.take(i as int + 1).drop_last() == side@.take(i as int));
                assert(side@.take(i as int + 1).last() == side@[i as int]);
                if i == 0 {
                    assert(side@.take(1int)[0] == side@[0]);
                    assert(s@ =~= side_str(side@.take(i as int + 1), explicit));
                } else {
                    assert(s@ =~= side_str(side@.take(i as int + 1), explicit));
                }
            }
            i = i + 1;
        }
        proof {
            assert(side@.take(n as int) == side@);
        }
        s
    }

    /// Renders the reaction as `"<reactants> = <products>"`, each side its
    /// species joined by `" + "`, each species its coefficient and formula
    /// (a coefficient of one appears only in explicit mode).
    pub fn display_string(&self, explicit: bool) -> (r: String)
        ensures
            r@ == side_str(self.reactants@, explicit) + " = "@ + side_str(self.products@, explicit),
    {
        let mut s = BalancedReaction::side_display_string(&self.reactants, explicit);
        s.append(" = ");
        let p = BalancedReaction::side_display_string(&self.products, explicit);
        s.append(p.as_str());
        s
    }
}

/// All coefficients of a reaction in order: reactants, then products.
pub open spec fn coefficient_seq(reactants: Seq<Reactant>, products: Seq<Reactant>) -> Seq<u64> {
    reactants.map_values(|r: Reactant| r.molar_coefficient) + products.map_values(
        |r: Reactant| r.molar_coefficient,
    )
}

/// Round-trip atom conservation: a balanced reaction carries, for every
/// element, exactly the same coefficient-weighted atom total on both sides.
/// The only constructor re-checks this with exact integer arithmetic, so it
/// holds of every `BalancedReaction` there is.
pub proof fn lemma_balanced_conservation(br: BalancedReaction, z: u32)
    requires
        br.wf(),
    ensures
        side_total(br.reactants@, z) == side_total(br.products@, z),
{
}

/// Parsing the canonical formula a compound displays yields the compound's
/// own counts: the displayed formula is the stored one, and a compound only
/// exists when that formula parses to its stored counts.
pub proof fn lemma_parse_canonical_formula(c: Compound)
    requires
        c.wf(),
    ensures
        spec_parse(c.formula@) == Ok::<Map<u32, u64>, ParseError>(c.atoms@),
{
}

/// The set of elements that occur anywhere in a list of compounds.
pub open spec fn element_set(cs: Seq<Compound>) -> Set<u32>
    decreases cs.len(),
{
    if cs.len() == 0 {
        Set::empty()
    } else {
        element_set(cs.drop_last()).union(cs.last().atoms@.dom())
    }
}

/// An element is in the set of a side exactly when some compound there
/// carries it.
proof fn lemma_element_set_contains(cs: Seq<Compound>, z: u32)
    ensures
        element_set(cs).contains(z) <==> exists|i: int|
            0 <= i < cs.len() && (#[trigger] cs[i]).atoms@.dom().contains(z),
    decreases cs.len(),
{
    if cs.len() > 0 {
        lemma_element_set_contains(cs.drop_last(), z);
        if element_set(cs).contains(z) {
            if cs.last().atoms@.dom().contains(z) {
                assert(cs[cs.len() - 1].atoms@.dom().contains(z));
            } else {
                let i = choose|i: int|
                    0 <= i < cs.drop_last().len() && (#[trigger] cs.drop_last()[i]).atoms@.dom().contains(z);
                assert(cs[i].atoms@.dom().contains(z));
            }
        }
        if exists|i: int| 0 <= i < cs.len() && (#[trigger] cs[i]).atoms@.dom().contains(z) {
            let i = choose|i: int| 0 <= i < cs.len() && (#[trigger] cs[i]).atoms@.dom().contains(z);
            if i < cs.len() - 1 {
                assert(cs.drop_last()[i].atoms@.dom().contains(z));
            }
        }
    }
}

/// Whether a sequence holds a value.
pub open spec fn seq_has(v: Seq<u32>, z: u32) -> bool {
    exists|i: int| 0 <= i < v.len() && v[i] == z
}

/// Whether one of the first `k` entries carries key `z`.
pub open spec fn keys_has(ev: Seq<(u32, u64)>, k: int, z: u32) -> bool {
    exists|t: int| 0 <= t < k && ev[t].0 == z
}

/// Appending one value extends exactly by that value.
proof fn lemma_seq_has_push(v: Seq<u32>, x: u32, z: u32)
    ensures
        seq_has(v.push(x), z) <==> (seq_has(v, z) || z == x),
{
    if seq_has(v.push(x), z) {
        let t = choose|t: int| 0 <= t < v.push(x).len() && v.push(x)[t] == z;
        if t < v.len() {
            assert(v[t] == z);
        }
    }
    if seq_has(v, z) {
        let t = choose|t: int| 0 <= t < v.len() && v[t] == z;
        assert(v.push(x)[t] == z);
    }
    if z == x {
        assert(v.push(x)[v.len() as int] == z);
    }
}

/// Whether a value occurs in a vector.
fn vec_contains(v: &Vec<u32>, z: u32) -> (r: bool)
    ensures
        r == seq_has(v@, z),
{
    let mut i: usize = 0;
    while i < v.len()
        invariant
            0 <= i <= v@.len(),
            forall|t: int| 0 <= t < i ==> v@[t] != z,
        decreases v@.len() - i,
    {
        if v[i] == z {
            return true;
        }
        i = i + 1;
    }
    false
}

/// The elements of a side, each atomic number once.
fn side_elements(cs: &Vec<Compound>) -> (r: Vec<u32>)
    requires
        forall|i: int| 0 <= i < cs@.len() ==> (#[trigger] cs@[i]).atoms.wf(),
    ensures
        forall|i: int, j: int| 0 <= i < j < r@.len() ==> r@[i] != r@[j],
        forall|z: u32| seq_has(r@, z) <==> element_set(cs@).contains(z),
{
    let mut acc: Vec<u32> = Vec::new();
    let n = cs.len();
    let mut i: usize = 0;
    while i < n
        invariant
            n == cs@.len(),
            forall|t: int| 0 <= t < cs@.len() ==> (#[trigger] cs@[t]).atoms.wf(),
            0 <= i <= n,
            forall|a: int, b: int| 0 <= a < b < acc@.len() ==> acc@[a] != acc@[b],
            forall|z: u32| seq_has(acc@, z) <==> element_set(cs@.take(i as int)).contains(z),
        decreases n - i,
    {
        proof {
            cs@[i as int].atoms.lemma_view_entries();
        }
        let ghost ev = cs@[i as int].atoms.entries_view();
        let m = cs[i].atoms.entry_count();
        let mut k: usize = 0;
        while k < m
            invariant
                n == cs@.len(),
                0 <= i < n,
                cs@[i as int].atoms.wf(),
                ev == cs@[i as int].atoms.entries_view(),
                m == ev.len(),
                forall|t: int|
                    0 <= t < m ==> cs@[i as int].atoms@.dom().contains(#[trigger] ev[t].0),
                forall|z: u32|
                    cs@[i as int].atoms@.dom().contains(z) ==> keys_has(ev, m as int, z),
                0 <= k <= m,
                forall|a: int, b: int| 0 <= a < b < acc@.len() ==> acc@[a] != acc@[b],
                forall|z: u32|
                    seq_has(acc@, z) <==> (element_set(cs@.take(i as int)).contains(z)
                        || keys_has(ev, k as int, z)),
            decreases m - k,
        {
            let e = cs[i].atoms.entry_at(k);
            let ghost acc_pre = acc@;
            if !vec_contains(&acc, e.0) {
                acc.push(e.0);
            }
            proof {
                assert forall|z: u32|
                    seq_has(acc@, z) <==> (element_set(cs@.take(i as int)).contains(z)
                        || keys_has(ev, k as int + 1, z)) by {
                    assert(seq_has(acc@, z) <==> (seq_has(acc_pre, z) || z == e.0)) by {
                        if acc@ == acc_pre {
                        } else {
                            lemma_seq_has_push(acc_pre, e.0, z);
                        }
                    }
                    assert(keys_has(ev, k as int + 1, z) <==> (keys_has(ev, k as int, z) || z
                        == ev[k as int].0)) by {
                        if keys_has(ev, k as int + 1, z) {
                            let t = choose|t: int| 0 <= t < k + 1 && ev[t].0 == z;
                            if t < k {
                                assert(keys_has(ev, k as int, z));
                            }
                        }
                        if keys_has(ev, k as int, z) {
                            let t = choose|t: int| 0 <= t < k && ev[t].0 == z;
                            assert(0 <= t < k + 1 && ev[t].0 == z);
                        }
                        if z == ev[k as int].0 {
                            assert(0 <= k < k + 1 && ev[k as int].0 == z);
                        }
                    }
                }
            }
            k = k + 1;
        }
        proof {
            assert(cs@.take(i as int + 1).drop_last() == cs@.take(i as int));
            assert(cs@.take(i as int + 1).last() == cs@[i as int]);
            assert(element_set(cs@.take(i as int + 1)) == element_set(cs@.take(i as int)).union(
                cs@[i as int].atoms@.dom(),
            ));
            assert forall|z: u32|
                seq_has(acc@, z) <==> element_set(cs@.take(i as int + 1)).contains(z) by {
                if keys_has(ev, m as int, z) {
                    let t = choose|t: int| 0 <= t < m && ev[t].0 == z;
                    assert(cs@[i as int].atoms@.dom().contains(z));
                }
            }
        }
        i = i + 1;
    }
    proof {
        assert(cs@.take(n as int) == cs@);
    }
    acc
}

/// The union bookkeeping of `merge_elements`: `out` holds exactly the
/// values of `base` and of the first `i` entries of `extra`.
pub open spec fn union_covers(out: Seq<u32>, base: Seq<u32>, extra: Seq<u32>, i: int) -> bool {
    forall|z: u32| seq_has(out, z) <==> (seq_has(base, z) || seq_has(extra.take(i), z))
}

/// Adds the values of `extra` that `acc` lacks.
fn merge_elements(acc: Vec<u32>, extra: &Vec<u32>) -> (r: Vec<u32>)
    requires
        forall|i: int, j: int| 0 <= i < j < acc@.len() ==> acc@[i] != acc@[j],
    ensures
        forall|i: int, j: int| 0 <= i < j < r@.len() ==> r@[i] != r@[j],
        forall|z: u32| seq_has(r@, z) <==> (seq_has(acc@, z) || seq_has(extra@, z)),
{
    let mut out = acc;
    let ghost base = out@;
    let n = extra.len();
    let mut i: usize = 0;
    while i < n
        invariant
            n == extra@.len(),
            0 <= i <= n,
            forall|a: int, b: int| 0 <= a < b < out@.len() ==> out@[a] != out@[b],
            union_covers(out@, base, extra@, i as int),
        decreases n - i,
    {
        let z = extra[i];
        let ghost pre = out@;
        proof {
            assert(union_covers(pre, base, extra@, i as int));
            assert(forall|w: u32|
                seq_has(pre, w) <==> (seq_has(base, w) || seq_has(extra@.take(i as int), w)));
        }
        if !vec_contains(&out, z) {
            out.push(z);
        }
        proof {
            assert forall|w: u32|
                seq_has(out@, w) <==> (seq_has(base, w) || seq_has(
                    extra@.take(i as int + 1),
                    w,
                )) by {
                assert(seq_has(out@, w) <==> (seq_has(pre, w) || w == z)) by {
                    if out@ == pre {
                    } else {
                        lemma_seq_has_push(pre, z, w);
                    }
                }
                assert(extra@.take(i as int + 1) =~= extra@.take(i as int).push(extra@[i as int]));
                lemma_seq_has_push(extra@.take(i as int), extra@[i as int], w);
            }
        }
        i = i + 1;
    }
    proof {
        assert(extra@.take(n as int) == extra@);
    }
    out
}

/// A reaction to be balanced: both sides name the same set of elements.
#[derive(Debug, Clone)]
pub struct Reaction {
    pub reactants: Vec<Compound>,
    pub products: Vec<Compound>,
}

impl Compound {
    /// An exact copy at the view level.
    pub fn duplicate(&self) -> (r: Compound)
        ensures
            r.formula@ == self.formula@,
            r.atoms@ == self.atoms@,
            r.atoms.wf() == self.atoms.wf(),
            self.wf() ==> r.wf(),
    {
        Compound { formula: self.formula.clone(), atoms: self.atoms.duplicate() }
    }
}

impl Reaction {
    /// Every compound parses, and both sides name the same elements.
    pub open spec fn wf(&self) -> bool {
        &&& forall|i: int| 0 <= i < self.reactants@.len() ==> (#[trigger] self.reactants@[i]).wf()
        &&& forall|i: int| 0 <= i < self.products@.len() ==> (#[trigger] self.products@[i]).wf()
        &&& element_set(self.reactants@) == element_set(self.products@)
    }

    /// Accepts a reaction only when the reactant and product element sets
    /// agree; otherwise reports the asymmetric elements of each side. An
    /// equation naming an element on one side only can never balance, so
    /// such input fails here, before any solving is attempted.
    pub fn new(reactants: Vec<Compound>, products: Vec<Compound>) -> (r: Result<
        Reaction,
        BalanceError,
    >)
        requires
            forall|i: int| 0 <= i < reactants@.len() ==> (#[trigger] reactants@[i]).wf(),
            forall|i: int| 0 <= i < products@.len() ==> (#[trigger] products@[i]).wf(),
        ensures
            match r {
                Ok(rx) => {
                    &&& rx.wf()
                    &&& rx.reactants == reactants
                    &&& rx.products == products
                    &&& element_set(reactants@) == element_set(products@)
                },
                Err(e) => {
                    &&& element_set(reactants@) != element_set(products@)
                    &&& e matches BalanceError::Conservation { reactants_only, products_only }
                        && (forall|z: u32|
                        seq_has(reactants_only@, z) <==> (element_set(reactants@).contains(z)
                            && !element_set(products@).contains(z))) && (forall|z: u32|
                        seq_has(products_only@, z) <==> (element_set(products@).contains(z)
                            && !element_set(reactants@).contains(z)))
                },
            },
    {
        let re = side_elements(&reactants);
        let pe = side_elements(&products);
        // Elements of one side that the other side lacks.
        let mut reactants_only: Vec<u32> = Vec::new();
        let rn = re.len();
        let mut i: usize = 0;
        while i < rn
            invariant
                rn == re@.len(),
                forall|z: u32| seq_has(re@, z) <==> element_set(reactants@).contains(z),
                forall|z: u32| seq_has(pe@, z) <==> element_set(products@).contains(z),
                0 <= i <= rn,
                forall|z: u32|
                    seq_has(reactants_only@, z) <==> (exists|t: int|
                        0 <= t < i && re@[t] == z && !element_set(products@).contains(z)),
            decreases rn - i,
        {
            let z = re[i];
            let ghost pre = reactants_only@;
            let absent = !vec_contains(&pe, z);
            if absent {
                reactants_only.push(z);
            }
            proof {
                if absent {
                    assert(!seq_has(pe@, z));
                    assert(!element_set(products@).contains(z));
                }
                assert forall|w: u32|
                    seq_has(reactants_only@, w) <==> (exists|t: int|
                        0 <= t < i + 1 && re@[t] == w && !element_set(products@).contains(w)) by {
                    if seq_has(reactants_only@, w) {
                        if absent {
                            lemma_seq_has_push(pre, z, w);
                        }
                        if seq_has(pre, w) {
                            let u = choose|u: int|
                                0 <= u < i && re@[u] == w && !element_set(products@).contains(w);
                            assert(0 <= u < i + 1 && re@[u] == w && !element_set(
                                products@,
                            ).contains(w));
                        } else {
                            assert(absent && w == z);
                            assert(re@[i as int] == w && !element_set(products@).contains(w));
                        }
                    }
                    if exists|t: int|
                        0 <= t < i + 1 && re@[t] == w && !element_set(products@).contains(w) {
                        let t = choose|t: int|
                            0 <= t < i + 1 && re@[t] == w && !element_set(products@).contains(w);
                        if t < i {
                            assert(exists|u: int|
                                0 <= u < i && re@[u] == w && !element_set(products@).contains(w));
                            assert(seq_has(pre, w));
                            let u = choose|u: int| 0 <= u < pre.len() && pre[u] == w;
                            assert(reactants_only@[u] == w);
                            assert(seq_has(reactants_only@, w));
                        } else {
                            assert(w == z);
                            assert(absent);
                            assert(reactants_only@[pre.len() as int] == z);
                            assert(seq_has(reactants_only@, w));
                        }
                    }
                }
            }
            i = i + 1;
        }
        let mut products_only: Vec<u32> = Vec::new();
        let pn = pe.len();
        let mut j: usize = 0;
        while j < pn
            invariant
                pn == pe@.len(),
                forall|z: u32| seq_has(re@, z) <==> element_set(reactants@).contains(z),
                forall|z: u32| seq_has(pe@, z) <==> element_set(products@).contains(z),
                0 <= j <= pn,
                forall|z: u32|
                    seq_has(products_only@, z) <==> (exists|t: int|
                        0 <= t < j && pe@[t] == z && !element_set(reactants@).contains(z)),
            decreases pn - j,
        {
            let z = pe[j];
            let ghost pre = products_only@;
            let absent = !vec_contains(&re, z);
            if absent {
                products_only.push(z);
            }
            proof {
                if absent {
                    assert(!seq_has(re@, z));
                    assert(!element_set(reactants@).contains(z));
                }
                assert forall|w: u32|
                    seq_has(products_only@, w) <==> (exists|t: int|
                        0 <= t < j + 1 && pe@[t] == w && !element_set(reactants@).contains(w)) by {
                    if seq_has(products_only@, w) {
                        if absent {
                            lemma_seq_has_push(pre, z, w);
                        }
                        if seq_has(pre, w) {
                            let u = choose|u: int|
                                0 <= u < j && pe@[u] == w && !element_set(reactants@).contains(w);
                            assert(0 <= u < j + 1 && pe@[u] == w && !element_set(
                                reactants@,
                            ).contains(w));
                        } else {
                            assert(absent && w == z);
                            assert(pe@[j as int] == w && !element_set(reactants@).contains(w));
                        }
                    }
                    if exists|t: int|
                        0 <= t < j + 1 && pe@[t] == w && !element_set(reactants@).contains(w) {
                        let t = choose|t: int|
                            0 <= t < j + 1 && pe@[t] == w && !element_set(reactants@).contains(w);
                        if t < j {
                            assert(exists|u: int|
                                0 <= u < j && pe@[u] == w && !element_set(reactants@).contains(w));
                            assert(seq_has(pre, w));
                            let u = choose|u: int| 0 <= u < pre.len() && pre[u] == w;
                            assert(products_only@[u] == w);
                            assert(seq_has(products_only@, w));
                        } else {
                            assert(w == z);
                            assert(absent);
                            assert(products_only@[pre.len() as int] == z);
                            assert(seq_has(products_only@, w));
                        }
                    }
                }
            }
            j = j + 1;
        }
        if reactants_only.len() == 0 && products_only.len() == 0 {
            proof {
                assert forall|z: u32| #![trigger element_set(reactants@).contains(z)]
                    element_set(reactants@).contains(z) == element_set(products@).contains(z) by {
                    if element_set(reactants@).contains(z) && !element_set(products@).contains(z) {
                        assert(seq_has(re@, z));
                        let t = choose|t: int| 0 <= t < re@.len() && re@[t] == z;
                        assert(0 <= t < rn && re@[t] == z && !element_set(products@).contains(z));
                        assert(seq_has(reactants_only@, z));
                    }
                    if element_set(products@).contains(z) && !element_set(reactants@).contains(z) {
                        assert(seq_has(pe@, z));
                        let t = choose|t: int| 0 <= t < pe@.len() && pe@[t] == z;
                        assert(0 <= t < pn && pe@[t] == z && !element_set(reactants@).contains(z));
                        assert(seq_has(products_only@, z));
                    }
                }
                assert(element_set(reactants@) =~= element_set(products@));
            }
            Ok(Reaction { reactants, products })
        } else {
            proof {
                if reactants_only@.len() > 0 {
                    let z = reactants_only@[0];
                    assert(seq_has(reactants_only@, z));
                    let t = choose|t: int|
                        0 <= t < rn && re@[t] == z && !element_set(products@).contains(z);
                    assert(seq_has(re@, z));
                    assert(element_set(reactants@).contains(z));
                } else {
                    let z = products_only@[0];
                    assert(seq_has(products_only@, z));
                    let t = choose|t: int|
                        0 <= t < pn && pe@[t] == z && !element_set(reactants@).contains(z);
                    assert(seq_has(pe@, z));
                    assert(element_set(products@).contains(z));
                }
                assert forall|z: u32|
                    seq_has(reactants_only@, z) <==> (element_set(reactants@).contains(z)
                        && !element_set(products@).contains(z)) by {
                    if seq_has(reactants_only@, z) {
                        let t = choose|t: int|
                            0 <= t < rn && re@[t] == z && !element_set(products@).contains(z);
                        assert(seq_has(re@, z));
                    }
                    if element_set(reactants@).contains(z) && !element_set(products@).contains(z) {
                        assert(seq_has(re@, z));
                        let t = choose|t: int| 0 <= t < re@.len() && re@[t] == z;
                        assert(0 <= t < rn && re@[t] == z && !element_set(products@).contains(z));
                        assert(seq_has(reactants_only@, z));
                    }
                }
                assert forall|z: u32|
                    seq_has(products_only@, z) <==> (element_set(products@).contains(z)
                        && !element_set(reactants@).contains(z)) by {
                    if seq_has(products_only@, z) {
                        let t = choose|t: int|
                            0 <= t < pn && pe@[t] == z && !element_set(reactants@).contains(z);
                        assert(seq_has(pe@, z));
                    }
                    if element_set(products@).contains(z) && !element_set(reactants@).contains(z) {
                        assert(seq_has(pe@, z));
                        let t = choose|t: int| 0 <= t < pe@.len() && pe@[t] == z;
                        assert(0 <= t < pn && pe@[t] == z && !element_set(reactants@).contains(z));
                        assert(seq_has(products_only@, z));
                    }
                }
            }
            Err(BalanceError::Conservation { reactants_only, products_only })
        }
    }

    /// How many species take part, both sides together.
    pub fn len(&self) -> (r: usize)
        requires
            self.reactants@.len() + self.products@.len() <= usize::MAX,
        ensures
            r == self.reactants@.len() + self.products@.len(),
    {
        self.reactants.len() + self.products.len()
    }

    /// The atomic numbers of the elements the reaction names, one each.
    pub fn all_elements(&self) -> (r: Vec<u32>)
        requires
            self.wf(),
        ensures
            forall|i: int, j: int| 0 <= i < j < r@.len() ==> r@[i] != r@[j],
            forall|z: u32|
                (seq_has(r@, z)) <==> (element_set(
                    self.reactants@,
                ).contains(z) || element_set(self.products@).contains(z)),
    {
        let re = side_elements(&self.reactants);
        let pe = side_elements(&self.products);
        merge_elements(re, &pe)
    }

    /// All species, reactants first, as view-exact copies.
    pub fn all_compounds(&self) -> (r: Vec<Compound>)
        requires
            self.reactants@.len() + self.products@.len() <= usize::MAX,
        ensures
            r@.len() == self.reactants@.len() + self.products@.len(),
            forall|i: int|
                0 <= i < self.reactants@.len() ==> (#[trigger] r@[i]).formula@
                    == self.reactants@[i].formula@ && r@[i].atoms@ == self.reactants@[i].atoms@
                    && r@[i].atoms.wf() == self.reactants@[i].atoms.wf(),
            forall|i: int|
                0 <= i < self.products@.len() ==> (#[trigger] r@[self.reactants@.len() + i]).formula@
                    == self.products@[i].formula@ && r@[self.reactants@.len() + i].atoms@
                    == self.products@[i].atoms@ && r@[self.reactants@.len() + i].atoms.wf()
                    == self.products@[i].atoms.wf(),
    {
        let mut r: Vec<Compound> = Vec::new();
        let mut i: usize = 0;
        while i < self.reactants.len()
            invariant
                0 <= i <= self.reactants@.len(),
                self.reactants@.len() + self.products@.len() <= usize::MAX,
                r@.len() == i,
                forall|t: int|
                    0 <= t < i ==> (#[trigger] r@[t]).formula@ == self.reactants@[t].formula@
                        && r@[t].atoms@ == self.reactants@[t].atoms@ && r@[t].atoms.wf()
                        == self.reactants@[t].atoms.wf(),
            decreases self.reactants@.len() - i,
        {
            r.push(self.reactants[i].duplicate());
            i = i + 1;
        }
        let mut j: usize = 0;
        while j < self.products.len()
            invariant
                0 <= j <= self.products@.len(),
                self.reactants@.len() + self.products@.len() <= usize::MAX,
                r@.len() == self.reactants@.len() + j,
                forall|t: int|
                    0 <= t < self.reactants@.len() ==> (#[trigger] r@[t]).formula@
                        == self.reactants@[t].formula@ && r@[t].atoms@ == self.reactants@[t].atoms@
                        && r@[t].atoms.wf() == self.reactants@[t].atoms.wf(),
                forall|t: int|
                    0 <= t < j ==> (#[trigger] r@[self.reactants@.len() + t]).formula@
                        == self.products@[t].formula@ && r@[self.reactants@.len() + t].atoms@
                        == self.products@[t].atoms@ && r@[self.reactants@.len() + t].atoms.wf()
                        == self.products@[t].atoms.wf(),
            decreases self.products@.len() - j,
        {
            r.push(self.products[j].duplicate());
            j = j + 1;
        }
        r
    }

    /// Balances the reaction: builds the atom-count matrix, solves it
    /// exactly, normalizes the solution to the smallest whole coefficients,
    /// rejects zero coefficients, and re-checks conservation with exact
    /// integer arithmetic. A returned reaction carries the inputs in order,
    /// every coefficient is positive, conservation holds exactly, and the
    /// coefficients share no common factor.
    pub fn balance(&self) -> (r: Result<BalancedReaction, BalanceError>)
        requires
            self.wf(),
            1 <= self.reactants@.len() + self.products@.len() <= usize::MAX,
        ensures
            match r {
                Ok(br) => {
                    &&& br.wf()
                    &&& is_balanced(br.reactants@, br.products@)
                    &&& br.reactants@.len() == self.reactants@.len()
                    &&& br.products@.len() == self.products@.len()
                    &&& forall|i: int|
                        0 <= i < br.reactants@.len() ==> (#[trigger] br.reactants@[i]).compound.formula@
                            == self.reactants@[i].formula@
                            && br.reactants@[i].compound.atoms@ == self.reactants@[i].atoms@
                            && br.reactants@[i].molar_coefficient >= 1
                    &&& forall|i: int|
                        0 <= i < br.products@.len() ==> (#[trigger] br.products@[i]).compound.formula@
                            == self.products@[i].formula@
                            && br.products@[i].compound.atoms@ == self.products@[i].atoms@
                            && br.products@[i].molar_coefficient >= 1
                    &&& gcd_seq(coefficient_seq(br.reactants@, br.products@)) == 1
                },
                Err(e) => {
                    &&& !(e matches BalanceError::Conservation { .. })
                    &&& (e matches BalanceError::ZeroCoefficient { formula } ==> (exists|i: int|
                        0 <= i < self.reactants@.len() && formula@ == (
                        #[trigger] self.reactants@[i]).formula@) || (exists|i: int|
                        0 <= i < self.products@.len() && formula@ == (
                        #[trigger] self.products@[i]).formula@))
                },
            },
    {
        let elements = self.all_elements();
        let ncols = self.len();
        let all = self.all_compounds();
        proof {
            assert forall|j: int| 0 <= j < all@.len() implies (#[trigger] all@[j]).atoms.wf() by {
                if j >= self.reactants@.len() {
                    assert(all@[self.reactants@.len() + (j - self.reactants@.len())].atoms.wf());
                }
            }
        }
        let mx = build_matrix(&elements, &all, ncols);
        let solution = match crate::solve::solve_system(&mx, ncols) {
            Ok(v) => v,
            Err(e) => {
                return Err(BalanceError::Solve(e));
            },
        };
        let coefficients = match crate::solve::normalize_coefficients(&solution) {
            Ok(v) => v,
            Err(e) => {
                return Err(BalanceError::Normalize(e));
            },
        };
        // A zero coefficient means the system is not well-posed as given;
        // name the species that solved to zero.
        let rl = self.reactants.len();
        let mut z: usize = 0;
        while z < coefficients.len()
            invariant
                rl == self.reactants@.len(),
                coefficients@.len() == self.reactants@.len() + self.products@.len(),
                0 <= z <= coefficients@.len(),
                forall|t: int| 0 <= t < z ==> (#[trigger] coefficients@[t]) >= 1,
            decreases coefficients@.len() - z,
        {
            if coefficients[z] == 0 {
                let formula = if z < rl {
                    self.reactants[z].formula.clone()
                } else {
                    self.products[z - rl].formula.clone()
                };
                return Err(BalanceError::ZeroCoefficient { formula });
            }
            z = z + 1;
        }
        // Pair each species with its coefficient, reactants first.
        let mut rs: Vec<Reactant> = Vec::new();
        let mut i: usize = 0;
        while i < rl
            invariant
                self.wf(),
                rl == self.reactants@.len(),
                coefficients@.len() == self.reactants@.len() + self.products@.len(),
                forall|t: int| 0 <= t < coefficients@.len() ==> (#[trigger] coefficients@[t]) >= 1,
                0 <= i <= rl,
                rs@.len() == i,
                forall|t: int|
                    0 <= t < i ==> (#[trigger] rs@[t]).compound.formula@
                        == self.reactants@[t].formula@ && rs@[t].compound.atoms@
                        == self.reactants@[t].atoms@ && rs@[t].compound.atoms.wf()
                        && rs@[t].molar_coefficient == coefficients@[t],
            decreases rl - i,
        {
            rs.push(
                Reactant {
                    compound: self.reactants[i].duplicate(),
                    molar_coefficient: coefficients[i],
                },
            );
            i = i + 1;
        }
        let pl = self.products.len();
        let mut ps: Vec<Reactant> = Vec::new();
        let mut j: usize = 0;
        while j < pl
            invariant
                self.wf(),
                rl == self.reactants@.len(),
                pl == self.products@.len(),
                rl + pl <= usize::MAX,
                coefficients@.len() == rl + pl,
                forall|t: int| 0 <= t < coefficients@.len() ==> (#[trigger] coefficients@[t]) >= 1,
                0 <= j <= pl,
                ps@.len() == j,
                forall|t: int|
                    0 <= t < j ==> (#[trigger] ps@[t]).compound.formula@
                        == self.products@[t].formula@ && ps@[t].compound.atoms@
                        == self.products@[t].atoms@ && ps@[t].compound.atoms.wf()
                        && ps@[t].molar_coefficient == coefficients@[rl + t],
            decreases pl - j,
        {
            ps.push(
                Reactant {
                    compound: self.products[j].duplicate(),
                    molar_coefficient: coefficients[rl + j],
                },
            );
            j = j + 1;
        }
        let ghost gcoeffs = coefficients@;
        match BalancedReaction::new(rs, ps) {
            Ok(br) => {
                proof {
                    assert(coefficient_seq(br.reactants@, br.products@) =~= gcoeffs);
                }
                Ok(br)
            },
            Err(e) => Err(e),
        }
    }
}

/// The atom-count matrix of a reaction: one row per element, one column
/// per species (reactants first, then products), each cell the number of
/// atoms of that row's element in that column's species.
pub fn build_matrix(all_elements: &Vec<u32>, all_compounds: &Vec<Compound>, ncols: usize) -> (r:
    Vec<Vec<u64>>)
    requires
        ncols == all_compounds@.len(),
        forall|j: int| 0 <= j < all_compounds@.len() ==> (#[trigger] all_compounds@[j]).atoms.wf(),
    ensures
        r@.len() == all_elements@.len(),
        forall|i: int| 0 <= i < r@.len() ==> (#[trigger] r@[i])@.len() == ncols,
        forall|i: int, j: int|
            0 <= i < r@.len() && 0 <= j < ncols ==> (#[trigger] r@[i]@[j]) == count_of(
                all_compounds@[j].atoms@,
                all_elements@[i],
            ),
{
    let nrows = all_elements.len();
    let mut r: Vec<Vec<u64>> = Vec::new();
    let mut i: usize = 0;
    while i < nrows
        invariant
            nrows == all_elements@.len(),
            ncols == all_compounds@.len(),
            forall|j: int| 0 <= j < all_compounds@.len() ==> (#[trigger] all_compounds@[j]).atoms.wf(),
            0 <= i <= nrows,
            r@.len() == i,
            forall|a: int| 0 <= a < i ==> (#[trigger] r@[a])@.len() == ncols,
            forall|a: int, b: int|
                0 <= a < i && 0 <= b < ncols ==> (#[trigger] r@[a]@[b]) == count_of(
                    all_compounds@[b].atoms@,
                    all_elements@[a],
                ),
        decreases nrows - i,
    {
        let z = all_elements[i];
        let mut row: Vec<u64> = Vec::new();
        let mut j: usize = 0;
        while j < ncols
            invariant
                ncols == all_compounds@.len(),
                forall|t: int|
                    0 <= t < all_compounds@.len() ==> (#[trigger] all_compounds@[t]).atoms.wf(),
                0 <= j <= ncols,
                row@.len() == j,
                forall|b: int|
                    0 <= b < j ==> (#[trigger] row@[b]) == count_of(
                        all_compounds@[b].atoms@,
                        z,
                    ),
            decreases ncols - j,
        {
            row.push(all_compounds[j].atoms.get(z));
            j = j + 1;
        }
        r.push(row);
        i = i + 1;
    }
    r
}

} // verus!
