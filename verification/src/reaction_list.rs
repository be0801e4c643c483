//! Turning command-line substance lists into reactions.
//!
//! A substance list is a flat list of tokens; an `=` token separates
//! reactants from products, and a species may carry an explicit
//! `<coefficient>*<formula>` prefix.

use vstd::prelude::*;

use crate::model::BalanceError;
use crate::model::Compound;
use crate::model::Reactant;
use crate::model::Reaction;
use crate::model::element_set;
use crate::parse::ParseError;
use crate::parse::digits_value;
use crate::parse::is_digit;
use crate::parse::spec_parse;

verus! {

/// Why a substance token could not be used.
#[derive(Debug, Clone, PartialEq, Eq)]
pub enum InputError {
    /// The part before a `*` is not a coefficient.
    InvalidCoefficient,
    /// More than one `*` splits the token.
    InvalidFormula,
    /// The formula itself does not parse.
    Parse(ParseError),
    /// The reaction could not be assembled.
    Balance(BalanceError),
}

/// Units a result is reported in.
#[derive(Debug, Clone, Copy, PartialEq, Eq, Structural)]
pub enum Units {
    Grams,
    Percent,
    Moles,
}

/// The unit suffix shown after a number.
pub open spec fn units_str(u: Units) -> Seq<char> {
    match u {
        Units::Grams => "g"@,
        Units::Percent => "%"@,
        Units::Moles => "mol"@,
    }
}

impl Units {
    /// The unit's display suffix.
    pub fn display_string(&self) -> (r: String)
        ensures
            r@ == units_str(*self),
    {
        match self {
            Units::Grams => "g".to_owned(),
            Units::Percent => "%".to_owned(),
            Units::Moles => "mol".to_owned(),
        }
    }
}

/// What a theoretical yield is reported as.
#[derive(Debug, Clone, Copy, PartialEq, Eq, Structural)]
pub enum YieldUnits {
    Mass,
    Moles,
}

impl From<YieldUnits> for Units {
    /// Mass yields are reported in grams, molar yields in moles.
    fn from(val: YieldUnits) -> (r: Units) {
        match val {
            YieldUnits::Mass => Units::Grams,
            YieldUnits::Moles => Units::Moles,
        }
    }
}

impl vstd::std_specs::convert::FromSpecImpl<YieldUnits> for Units {
    open spec fn obeys_from_spec() -> bool {
        true
    }

    open spec fn from_spec(val: YieldUnits) -> Units {
        match val {
            YieldUnits::Mass => Units::Grams,
            YieldUnits::Moles => Units::Moles,
        }
    }
}

/// The index of the first separator token `=`, or the length when none.
pub open spec fn split_index_from(s: Seq<String>, i: int) -> int
    decreases s.len() - i,
{
    if i < 0 || i >= s.len() {
        s.len() as int
    } else if s[i]@ == "="@ {
        i
    } else {
        split_index_from(s, i + 1)
    }
}

/// The elements that a token list's compounds would name: the union of the
/// successful parses' key sets (a failing token contributes nothing).
pub open spec fn tokens_element_set(ts: Seq<String>) -> Set<u32>
    decreases ts.len(),
{
    if ts.len() == 0 {
        Set::empty()
    } else {
        tokens_element_set(ts.drop_last()).union(
            match spec_parse(ts.last()@) {
                Ok(m) => m.dom(),
                Err(_) => Set::empty(),
            },
        )
    }
}

/// Compounds parsed from a token list name exactly the tokens' elements.
proof fn lemma_tokens_element_set(cs: Seq<Compound>, ts: Seq<String>)
    requires
        cs.len() == ts.len(),
        forall|i: int|
            0 <= i < ts.len() ==> spec_parse((#[trigger] ts[i])@) == Ok::<Map<u32, u64>, ParseError>(
                cs[i].atoms@,
            ),
    ensures
        element_set(cs) == tokens_element_set(ts),
    decreases cs.len(),
{
    if cs.len() > 0 {
        assert(forall|i: int|
            0 <= i < ts.drop_last().len() ==> spec_parse((#[trigger] ts.drop_last()[i])@) == Ok::<
                Map<u32, u64>,
                ParseError,
            >(cs.drop_last()[i].atoms@));
        lemma_tokens_element_set(cs.drop_last(), ts.drop_last());
        assert(spec_parse(ts.last()@) == Ok::<Map<u32, u64>, ParseError>(cs.last().atoms@));
    }
}

/// Every token of both sides parses, and the two sides name the same
/// elements: exactly the inputs on which a reaction is owed.
pub open spec fn tokens_ready(rt: Seq<String>, pt: Seq<String>) -> bool {
    &&& forall|i: int| 0 <= i < rt.len() ==> spec_parse((#[trigger] rt[i])@) is Ok
    &&& forall|i: int| 0 <= i < pt.len() ==> spec_parse((#[trigger] pt[i])@) is Ok
    &&& tokens_element_set(rt) == tokens_element_set(pt)
}

/// The separator index never leaves the token list.
proof fn lemma_split_index_bounds(s: Seq<String>, i: int)
    requires
        0 <= i <= s.len(),
    ensures
        i <= split_index_from(s, i) <= s.len(),
    decreases s.len() - i,
{
    if i < s.len() && s[i]@ != "="@ {
        lemma_split_index_bounds(s, i + 1);
    }
}

/// The index of a token's first `*`, or the length when none.
pub open spec fn star_index_from(s: Seq<char>, i: int) -> int
    decreases s.len() - i,
{
    if i < 0 || i >= s.len() {
        s.len() as int
    } else if s[i] == '*' {
        i
    } else {
        star_index_from(s, i + 1)
    }
}

/// A list of substance tokens naming a reaction.
#[derive(Debug, Clone)]
pub struct ReactionList {
    substances: Vec<String>,
}

impl View for ReactionList {
    type V = Seq<String>;

    closed spec fn view(&self) -> Seq<String> {
        self.substances@
    }
}

impl ReactionList {
    /// Wraps the raw token list.
    pub fn new(substances: Vec<String>) -> (r: ReactionList)
        ensures
            r@ == substances@,
    {
        ReactionList { substances }
    }

    /// The raw token list.
    pub fn tokens(&self) -> (r: Vec<String>)
        ensures
            r@ == self@,
    {
        let n = self.substances.len();
        let mut out: Vec<String> = Vec::new();
        let mut i: usize = 0;
        while i < n
            invariant
                n == self@.len(),
                0 <= i <= n,
                out@ == self@.take(i as int),
            decreases n - i,
        {
            out.push(self.substances[i].clone());
            proof {
                assert(out@ =~= self@.take(i as int + 1));
            }
            i = i + 1;
        }
        proof {
            assert(self@.take(n as int) == self@);
        }
        out
    }

    /// Splits the tokens at the first `=`: everything before it names
    /// reactants, everything after it names products.
    pub fn split_reagents_products(&self) -> (r: (Vec<String>, Vec<String>))
        ensures
            ({
                let si = split_index_from(self@, 0);
                &&& r.0@ == self@.take(si)
                &&& r.1@ == if si < self@.len() {
                    self@.skip(si + 1)
                } else {
                    Seq::<String>::empty()
                }
            }),
    {
        let n = self.substances.len();
        let sep: String = "=".to_owned();
        let mut si: usize = 0;
        loop
            invariant
                n == self@.len(),
                sep@ == "="@,
                0 <= si <= n,
                split_index_from(self@, 0) == split_index_from(self@, si as int),
                forall|t: int| 0 <= t < si ==> self@[t]@ != "="@,
            ensures
                0 <= si <= n,
                si as int == split_index_from(self@, 0),
            decreases n - si,
        {
            if si >= n {
                break;
            }
            if self.substances[si] == sep {
                break;
            }
            si = si + 1;
        }
        let mut before: Vec<String> = Vec::new();
        let mut i: usize = 0;
        while i < si
            invariant
                0 <= i <= si <= self@.len(),
                before@ == self@.take(i as int),
            decreases si - i,
        {
            before.push(self.substances[i].clone());
            proof {
                assert(before@ =~= self@.take(i as int + 1));
            }
            i = i + 1;
        }
        let mut after: Vec<String> = Vec::new();
        if si < n {
            let mut j: usize = si + 1;
            while j < n
                invariant
                    si as int + 1 <= j as int <= n,
                    n == self@.len(),
                    after@ == self@.subrange(si as int + 1, j as int),
                decreases n - j,
            {
                after.push(self.substances[j].clone());
                proof {
                    assert(after@ =~= self@.subrange(si as int + 1, j as int + 1));
                }
                j = j + 1;
            }
        }
        proof {
            assert(before@ == self@.take(si as int));
            if (si as int) < self@.len() {
                assert(after@ == self@.skip(si as int + 1));
            } else {
                assert(after@ =~= Seq::<String>::empty());
            }
        }
        (before, after)
    }

    /// Reads one substance token: an optional `<coefficient>*` prefix and
    /// a formula. A token with no `*` has coefficient one; a token with a
    /// malformed coefficient or more than one `*` is rejected; the formula
    /// must parse.
    pub fn str_to_reactant(formula: &str, index: usize) -> (r: Result<Reactant, InputError>)
        ensures
            ({
                let s = formula@;
                let p = star_index_from(s, 0);
                match r {
                    Ok(rt) => {
                        &&& rt.compound.wf()
                        &&& if p == s.len() {
                            rt.compound.formula@ == s && rt.molar_coefficient == 1
                        } else {
                            &&& rt.compound.formula@ == s.skip(p + 1)
                            &&& p >= 1
                            &&& forall|t: int| 0 <= t < p ==> is_digit(#[trigger] s[t])
                            &&& rt.molar_coefficient == digits_value(s, 0, p)
                        }
                    },
                    Err(InputError::Parse(e)) => spec_parse(
                        if p == s.len() {
                            s
                        } else {
                            s.skip(p + 1)
                        },
                    ) == Err::<Map<u32, u64>, ParseError>(e) && (p < s.len() ==> !(exists|t: int|
                        p < t < s.len() && s[t] == '*')),
                    Err(InputError::InvalidFormula) => p < s.len() && exists|t: int|
                        p < t < s.len() && s[t] == '*',
                    Err(InputError::InvalidCoefficient) => p < s.len() && !(exists|t: int|
                        p < t < s.len() && s[t] == '*') && (p == 0 || (exists|t: int|
                        0 <= t < p && !is_digit(#[trigger] s[t])) || digits_value(s, 0, p)
                        > u64::MAX),
                    Err(InputError::Balance(_)) => false,
                }
            }),
    {
        let n = formula.unicode_len();
        let mut p: usize = 0;
        loop
            invariant
                n == formula@.len(),
                0 <= p <= n,
                star_index_from(formula@, 0) == star_index_from(formula@, p as int),
                forall|t: int| 0 <= t < p ==> formula@[t] != '*',
            ensures
                0 <= p <= n,
                p as int == star_index_from(formula@, 0),
                forall|t: int| 0 <= t < p ==> formula@[t] != '*',
                p < n ==> formula@[p as int] == '*',
            decreases n - p,
        {
            if p >= n {
                break;
            }
            if formula.get_char(p) == '*' {
                break;
            }
            p = p + 1;
        }
        if p >= n {
            // No coefficient prefix.
            match Reactant::from_formula(formula, 1) {
                Ok(rt) => Ok(rt),
                Err(e) => Err(InputError::Parse(e)),
            }
        } else {
            // One star at p: the prefix must be a plain number.
            let rest = formula.substring_char(p + 1, n);
            // A second star makes the token invalid.
            let mut q: usize = p + 1;
            let mut second: bool = false;
            while q < n
                invariant
                    n == formula@.len(),
                    p < n,
                    p + 1 <= q <= n,
                    second == exists|t: int| p < t < q && formula@[t] == '*',
                decreases n - q,
            {
                if formula.get_char(q) == '*' {
                    second = true;
                    proof {
                        assert(p < q < q + 1 && formula@[q as int] == '*');
                    }
                }
                proof {
                    if !second && exists|t: int| p < t < q + 1 && formula@[t] == '*' {
                        let t = choose|t: int| p < t < q + 1 && formula@[t] == '*';
                        assert(t == q);
                    }
                }
                q = q + 1;
            }
            if second {
                return Err(InputError::InvalidFormula);
            }
            if p == 0 {
                return Err(InputError::InvalidCoefficient);
            }
            // The prefix must be all digits.
            let mut k: usize = 0;
            while k < p
                invariant
                    n == formula@.len(),
                    p < n,
                    p as int == star_index_from(formula@, 0),
                    !(exists|t: int| p < t < n && formula@[t] == '*'),
                    0 <= k <= p,
                    forall|t: int| 0 <= t < k ==> is_digit(#[trigger] formula@[t]),
                decreases p - k,
            {
                let c = formula.get_char(k);
                if !(('0' as u32) <= (c as u32) && (c as u32) <= ('9' as u32)) {
                    proof {
                        assert(0 <= k < p && !is_digit(formula@[k as int]));
                    }
                    return Err(InputError::InvalidCoefficient);
                }
                k = k + 1;
            }
            let coeff = match crate::parse::digits_to_u64(formula, 0, p) {
                Some(v) => v,
                None => {
                    return Err(InputError::InvalidCoefficient);
                },
            };
            proof {
                assert(formula@.skip(p as int + 1) =~= formula@.subrange(p as int + 1, n as int));
            }
            match Reactant::from_formula(rest, coeff) {
                Ok(rt) => Ok(rt),
                Err(e) => Err(InputError::Parse(e)),
            }
        }
    }

    /// Parses the token list into a reaction: the tokens before the first
    /// `=` become the reactant compounds in order, the tokens after it the
    /// product compounds, and the element sets of the two sides must agree.
    #[verifier::rlimit(40)]
    pub fn reaction(&self) -> (r: Result<Reaction, InputError>)
        ensures
            ({
                let si = split_index_from(self@, 0);
                let rt = self@.take(si);
                let pt = if si < self@.len() {
                    self@.skip(si + 1)
                } else {
                    Seq::<String>::empty()
                };
                match r {
                    Ok(rx) => {
                        &&& rx.wf()
                        &&& rx.reactants@.len() == rt.len()
                        &&& rx.products@.len() == pt.len()
                        &&& forall|i: int|
                            0 <= i < rt.len() ==> (#[trigger] rx.reactants@[i]).formula@ == rt[i]@
                                && spec_parse(rt[i]@) == Ok::<Map<u32, u64>, ParseError>(
                                rx.reactants@[i].atoms@,
                            )
                        &&& forall|i: int|
                            0 <= i < pt.len() ==> (#[trigger] rx.products@[i]).formula@ == pt[i]@
                                && spec_parse(pt[i]@) == Ok::<Map<u32, u64>, ParseError>(
                                rx.products@[i].atoms@,
                            )
                    },
                    Err(InputError::Parse(e)) => exists|i: int|
                        0 <= i < self@.len() && spec_parse((#[trigger] self@[i])@) == Err::<
                            Map<u32, u64>,
                            ParseError,
                        >(e),
                    Err(InputError::Balance(e)) => {
                        &&& e matches BalanceError::Conservation { .. }
                        &&& forall|i: int|
                            0 <= i < rt.len() ==> spec_parse((#[trigger] rt[i])@) is Ok
                        &&& forall|i: int|
                            0 <= i < pt.len() ==> spec_parse((#[trigger] pt[i])@) is Ok
                        &&& tokens_element_set(rt) != tokens_element_set(pt)
                    },
                    _ => false,
                }
            }),
            ({
                let si = split_index_from(self@, 0);
                let rt = self@.take(si);
                let pt = if si < self@.len() {
                    self@.skip(si + 1)
                } else {
                    Seq::<String>::empty()
                };
                tokens_ready(rt, pt) ==> r is Ok
            }),
    {
        let split = self.split_reagents_products();
        let reagent_tokens = split.0;
        let product_tokens = split.1;
        let mut reagents: Vec<Compound> = Vec::new();
        let mut i: usize = 0;
        while i < reagent_tokens.len()
            invariant
                reagent_tokens@ == self@.take(split_index_from(self@, 0)),
                0 <= i <= reagent_tokens@.len(),
                reagents@.len() == i,
                forall|t: int|
                    0 <= t < i ==> (#[trigger] reagents@[t]).wf() && reagents@[t].formula@
                        == reagent_tokens@[t]@,
            decreases reagent_tokens@.len() - i,
        {
            match Compound::from_formula(reagent_tokens[i].as_str()) {
                Ok(c) => {
                    reagents.push(c);
                },
                Err(e) => {
                    proof {
                        let si = split_index_from(self@, 0);
                        lemma_split_index_bounds(self@, 0);
                        assert(self@.take(si)[i as int] == self@[i as int]);
                        assert(spec_parse(self@[i as int]@) == Err::<Map<u32, u64>, ParseError>(e));
                        assert(spec_parse((self@.take(si)[i as int])@) == Err::<
                            Map<u32, u64>,
                            ParseError,
                        >(e));
                        let pt = if si < self@.len() {
                            self@.skip(si + 1)
                        } else {
                            Seq::<String>::empty()
                        };
                        if tokens_ready(self@.take(si), pt) {
                            assert(spec_parse((self@.take(si)[i as int])@) is Ok);
                        }
                        assert(!tokens_ready(self@.take(si), pt));
                    }
                    return Err(InputError::Parse(e));
                },
            }
            i = i + 1;
        }
        let mut products: Vec<Compound> = Vec::new();
        let mut j: usize = 0;
        while j < product_tokens.len()
            invariant
                ({
                    let si = split_index_from(self@, 0);
                    product_tokens@ == if si < self@.len() {
                        self@.skip(si + 1)
                    } else {
                        Seq::<String>::empty()
                    }
                }),
                0 <= j <= product_tokens@.len(),
                products@.len() == j,
                forall|t: int|
                    0 <= t < j ==> (#[trigger] products@[t]).wf() && products@[t].formula@
                        == product_tokens@[t]@,
            decreases product_tokens@.len() - j,
        {
            match Compound::from_formula(product_tokens[j].as_str()) {
                Ok(c) => {
                    products.push(c);
                },
                Err(e) => {
                    proof {
                        let si = split_index_from(self@, 0);
                        lemma_split_index_bounds(self@, 0);
                        let pt = if si < self@.len() {
                            self@.skip(si + 1)
                        } else {
                            Seq::<String>::empty()
                        };
                        if si < self@.len() {
                            assert(self@.skip(si + 1)[j as int] == self@[si + 1 + j]);
                            assert(spec_parse(self@[si + 1 + j]@) == Err::<
                                Map<u32, u64>,
                                ParseError,
                            >(e));
                            assert(spec_parse((self@.skip(si + 1)[j as int])@) == Err::<
                                Map<u32, u64>,
                                ParseError,
                            >(e));
                        }
                        if tokens_ready(self@.take(si), pt) {
                            assert(spec_parse((pt[j as int])@) is Ok);
                        }
                        assert(!tokens_ready(self@.take(si), pt));
                    }
                    return Err(InputError::Parse(e));
                },
            }
            j = j + 1;
        }
        proof {
            lemma_split_index_bounds(self@, 0);
            let si = split_index_from(self@, 0);
            let rt = self@.take(si);
            let pt = if si < self@.len() {
                self@.skip(si + 1)
            } else {
                Seq::<String>::empty()
            };
            assert(forall|t: int|
                0 <= t < rt.len() ==> spec_parse((#[trigger] rt[t])@) == Ok::<
                    Map<u32, u64>,
                    ParseError,
                >(reagents@[t].atoms@));
            assert(forall|t: int|
                0 <= t < pt.len() ==> spec_parse((#[trigger] pt[t])@) == Ok::<
                    Map<u32, u64>,
                    ParseError,
                >(products@[t].atoms@));
            lemma_tokens_element_set(reagents@, rt);
            lemma_tokens_element_set(products@, pt);
        }
        match Reaction::new(reagents, products) {
            Ok(rx) => Ok(rx),
            Err(e) => {
                proof {
                    let si = split_index_from(self@, 0);
                    let rt = self@.take(si);
                    let pt = if si < self@.len() {
                        self@.skip(si + 1)
                    } else {
                        Seq::<String>::empty()
                    };
                    assert(tokens_element_set(rt) != tokens_element_set(pt));
                    assert(!tokens_ready(rt, pt));
                }
                Err(InputError::Balance(e))
            },
        }
    }
}

} // verus!
