//! The shape of an imported reaction document.
//!
//! A document holds steps; a step holds reactant, reagent and product
//! molecules; a molecule's formula is its raw formula with the subscript
//! markup stripped. Reading the document from disk and decoding it is the
//! surrounding program's business: this module holds the already-decoded
//! values and the logic that extracts formula strings from them.

use vstd::prelude::*;

verus! {

/// `s` with every occurrence of `pat` removed, scanning left to right.
pub open spec fn remove_all(s: Seq<char>, pat: Seq<char>) -> Seq<char>
    decreases s.len(),
{
    if pat.len() < 1 || s.len() < 1 {
        s
    } else if pat.len() <= s.len() && s.take(pat.len() as int) == pat {
        remove_all(s.skip(pat.len() as int), pat)
    } else {
        seq![s[0]] + remove_all(s.skip(1), pat)
    }
}

/// The displayable formula of a molecule: the raw formula without the
/// `<sub>` and `</sub>` markup.
pub open spec fn formula_of(raw: Seq<char>) -> Seq<char> {
    remove_all(remove_all(raw, "<sub>"@), "</sub>"@)
}

/// Whether `pat` occurs at position `i` of `s`.
fn matches_at(s: &str, n: usize, i: usize, pat: &str, m: usize) -> (r: bool)
    requires
        n == s@.len(),
        m == pat@.len(),
        i + m <= n,
    ensures
        r == (s@.subrange(i as int, i + m) == pat@),
{
    let mut k: usize = 0;
    while k < m
        invariant
            n == s@.len(),
            m == pat@.len(),
            i + m <= n,
            0 <= k <= m,
            forall|t: int| 0 <= t < k ==> s@[i + t] == pat@[t],
        decreases m - k,
    {
        if s.get_char(i + k) != pat.get_char(k) {
            proof {
                assert(s@.subrange(i as int, i + m)[k as int] != pat@[k as int]);
            }
            return false;
        }
        k = k + 1;
    }
    proof {
        assert(s@.subrange(i as int, i + m) =~= pat@);
    }
    true
}

/// Removes every occurrence of `pat` from `s`, scanning left to right.
fn remove_substr(s: &str, pat: &str) -> (r: String)
    requires
        pat@.len() >= 1,
    ensures
        r@ == remove_all(s@, pat@),
{
    let n = s.unicode_len();
    let m = pat.unicode_len();
    let mut out = String::new();
    let mut i: usize = 0;
    proof {
        assert(s@.skip(0) =~= s@);
    }
    while i < n
        invariant
            n == s@.len(),
            m == pat@.len(),
            m >= 1,
            0 <= i <= n,
            remove_all(s@, pat@) == out@ + remove_all(s@.skip(i as int), pat@),
        decreases n - i,
    {
        let hit = if m <= n && i <= n - m {
            matches_at(s, n, i, pat, m)
        } else {
            false
        };
        if hit {
            proof {
                assert(s@.skip(i as int).take(m as int) =~= s@.subrange(i as int, i + m));
                assert(s@.skip(i as int).skip(m as int) =~= s@.skip(i as int + m));
            }
            i = i + m;
        } else {
            let piece = s.substring_char(i, i + 1);
            out.append(piece);
            proof {
                if i + m <= n {
                    assert(s@.skip(i as int).take(m as int) =~= s@.subrange(i as int, i + m));
                }
                assert(s@.skip(i as int)[0] == s@[i as int]);
                assert(s@.skip(i as int).skip(1) =~= s@.skip(i as int + 1));
                assert(piece@ =~= seq![s@[i as int]]);
                assert(out@ + remove_all(s@.skip(i as int + 1), pat@) =~= remove_all(s@, pat@));
            }
            i = i + 1;
        }
    }
    proof {
        assert(s@.skip(n as int).len() == 0);
        assert(out@ =~= remove_all(s@, pat@));
    }
    out
}

/// One molecule of an imported reaction step.
#[derive(Debug, Clone)]
pub struct Molecule {
    pub name: String,
    pub raw_formula: String,
    pub smiles: String,
}

impl Molecule {
    /// The molecule's formula: the raw formula without subscript markup.
    pub fn formula(&self) -> (r: String)
        ensures
            r@ == formula_of(self.raw_formula@),
    {
        proof {
            reveal_strlit("<sub>");
            reveal_strlit("</sub>");
        }
        let stripped = remove_substr(self.raw_formula.as_str(), "<sub>");
        remove_substr(stripped.as_str(), "</sub>")
    }
}

/// One step of an imported reaction document.
#[derive(Debug, Clone)]
pub struct Step {
    pub reactants: Vec<Molecule>,
    pub reagents: Vec<Molecule>,
    pub products: Vec<Molecule>,
}

/// A whole imported reaction document.
#[derive(Debug, Clone)]
pub struct ChemdrawReaction {
    pub steps: Vec<Step>,
}

/// Appends each molecule's formula to `out`.
fn push_formulas(ms: &Vec<Molecule>, out: &mut Vec<String>)
    ensures
        final(out)@.len() == old(out)@.len() + ms@.len(),
        forall|t: int| 0 <= t < old(out)@.len() ==> final(out)@[t] == old(out)@[t],
        forall|t: int|
            0 <= t < ms@.len() ==> (#[trigger] final(out)@[old(out)@.len() + t])@ == formula_of(
                ms@[t].raw_formula@,
            ),
{
    let n = ms.len();
    let mut i: usize = 0;
    while i < n
        invariant
            n == ms@.len(),
            0 <= i <= n,
            out@.len() == old(out)@.len() + i,
            forall|t: int| 0 <= t < old(out)@.len() ==> out@[t] == old(out)@[t],
            forall|t: int|
                0 <= t < i ==> (#[trigger] out@[old(out)@.len() + t])@ == formula_of(
                    ms@[t].raw_formula@,
                ),
        decreases n - i,
    {
        let f = ms[i].formula();
        out.push(f);
        i = i + 1;
    }
}

impl ChemdrawReaction {
    /// The reactant formulas of the first step: its reactants, then its
    /// reagents. An empty document yields no formulas.
    pub fn reactants(&self) -> (r: Vec<String>)
        ensures
            ({
                if self.steps@.len() == 0 {
                    r@.len() == 0
                } else {
                    let step = self.steps@[0];
                    &&& r@.len() == step.reactants@.len() + step.reagents@.len()
                    &&& forall|t: int|
                        0 <= t < step.reactants@.len() ==> (#[trigger] r@[t])@ == formula_of(
                            step.reactants@[t].raw_formula@,
                        )
                    &&& forall|t: int|
                        0 <= t < step.reagents@.len() ==> (#[trigger] r@[step.reactants@.len()
                            + t])@ == formula_of(step.reagents@[t].raw_formula@)
                }
            }),
    {
        let mut out: Vec<String> = Vec::new();
        if self.steps.len() == 0 {
            return out;
        }
        push_formulas(&self.steps[0].reactants, &mut out);
        let ghost mid = out@;
        push_formulas(&self.steps[0].reagents, &mut out);
        proof {
            let step = self.steps@[0];
            assert forall|t: int| 0 <= t < step.reactants@.len() implies (#[trigger] out@[t])@
                == formula_of(step.reactants@[t].raw_formula@) by {
                assert((mid[0 + t])@ == formula_of(step.reactants@[t].raw_formula@));
                assert(out@[t] == mid[t]);
            }
            assert forall|t: int|
                0 <= t < step.reagents@.len() implies (#[trigger] out@[step.reactants@.len() + t])@
                == formula_of(step.reagents@[t].raw_formula@) by {
                assert((out@[mid.len() + t])@ == formula_of(step.reagents@[t].raw_formula@));
            }
        }
        out
    }

    /// The product formulas of the first step. An empty document yields no
    /// formulas.
    pub fn products(&self) -> (r: Vec<String>)
        ensures
            ({
                if self.steps@.len() == 0 {
                    r@.len() == 0
                } else {
                    let step = self.steps@[0];
                    &&& r@.len() == step.products@.len()
                    &&& forall|t: int|
                        0 <= t < step.products@.len() ==> (#[trigger] r@[t])@ == formula_of(
                            step.products@[t].raw_formula@,
                        )
                }
            }),
    {
        let mut out: Vec<String> = Vec::new();
        if self.steps.len() == 0 {
            return out;
        }
        push_formulas(&self.steps[0].products, &mut out);
        proof {
            let step = self.steps@[0];
            assert forall|t: int| 0 <= t < step.products@.len() implies (#[trigger] out@[t])@
                == formula_of(step.products@[t].raw_formula@) by {
                assert((out@[0 + t])@ == formula_of(step.products@[t].raw_formula@));
            }
        }
        out
    }
}

} // verus!
