//! The chemical formula parser.
//!
//! A formula is a sequence of element symbols (one uppercase letter, then
//! lowercase letters), each with an optional integer multiplier, and nested
//! groups in `()`, `[]` or `{}` brackets, each with an optional trailing
//! multiplier. Bracket styles need not match: every opener opens a group and
//! every closer closes one. An optional trailing hydrate suffix `*<N>H2O`
//! adds `2*N` hydrogen and `N` oxygen atoms.
//!
//! `spec_parse` is the mathematical definition of the grammar, written as a
//! recursion over the character sequence with an explicit stack of count
//! maps; `parse_formula` is the executable parser, proved to return exactly
//! what `spec_parse` says, error cases included.

use vstd::prelude::*;

use crate::counts::ElementCounts;
use crate::counts::add_count_fits;
use crate::counts::count_of;
use crate::counts::merge_fits;
use crate::counts::spec_add_count;
use crate::counts::spec_merge;
use crate::elements::atomic_symbol;
use crate::elements::lemma_symbol_number_found;
use crate::elements::symbol_number;
use crate::elements::symbol_to_number;

verus! {

/// Why a formula failed to parse.
#[derive(Debug, Clone, Copy, PartialEq, Eq, Structural)]
pub enum ParseError {
    /// A token that should be an element symbol is not one the table knows,
    /// or a character that cannot start any token.
    InvalidSymbol,
    /// A multiplier or an atom count does not fit in 64 bits.
    Overflow,
    /// A closing bracket with no group open.
    UnmatchedClosing,
    /// The input ended with a group still open.
    UnclosedGroup,
    /// A `*` suffix that is not of the form `*<N>H2O`.
    InvalidHydrate,
    /// Characters after the end of a hydrate suffix.
    TrailingInput,
}

/// What the parser yields: counts keyed by atomic number, or an error.
pub type SpecParsed = Result<Map<u32, u64>, ParseError>;

pub open spec fn is_opening(c: char) -> bool {
    c == '(' || c == '[' || c == '{'
}

pub open spec fn is_closing(c: char) -> bool {
    c == ')' || c == ']' || c == '}'
}

pub open spec fn is_upper(c: char) -> bool {
    ('A' as u32) <= (c as u32) && (c as u32) <= ('Z' as u32)
}

pub open spec fn is_lower(c: char) -> bool {
    ('a' as u32) <= (c as u32) && (c as u32) <= ('z' as u32)
}

pub open spec fn is_digit(c: char) -> bool {
    ('0' as u32) <= (c as u32) && (c as u32) <= ('9' as u32)
}

/// Numeric value of a digit character.
pub open spec fn digit_val(c: char) -> int {
    (c as u32) - ('0' as u32)
}

/// Length of the run of digits starting at `i`.
pub open spec fn digit_run(s: Seq<char>, i: int) -> nat
    decreases s.len() - i,
{
    if 0 <= i < s.len() && is_digit(s[i]) {
        (1 + digit_run(s, i + 1)) as nat
    } else {
        0
    }
}

/// Length of the run of lowercase letters starting at `i`.
pub open spec fn lower_run(s: Seq<char>, i: int) -> nat
    decreases s.len() - i,
{
    if 0 <= i < s.len() && is_lower(s[i]) {
        (1 + lower_run(s, i + 1)) as nat
    } else {
        0
    }
}

/// The number the digits of `s[i..j)` spell.
pub open spec fn digits_value(s: Seq<char>, i: int, j: int) -> int
    decreases j - i,
{
    if i >= j {
        0
    } else {
        digits_value(s, i, j - 1) * 10 + digit_val(s[j - 1])
    }
}

/// The multiplier spelled at `s[i..i+run)`: 1 when the run is empty.
pub open spec fn run_mult(s: Seq<char>, i: int) -> int {
    if digit_run(s, i) == 0 {
        1
    } else {
        digits_value(s, i, i + digit_run(s, i))
    }
}

/// A digit run never reaches past the end of the string.
proof fn lemma_digit_run_le(s: Seq<char>, i: int)
    requires
        i <= s.len(),
    ensures
        i + digit_run(s, i) <= s.len(),
    decreases s.len() - i,
{
    if 0 <= i < s.len() && is_digit(s[i]) {
        lemma_digit_run_le(s, i + 1);
    }
}

/// A lowercase run never reaches past the end of the string.
proof fn lemma_lower_run_le(s: Seq<char>, i: int)
    requires
        i <= s.len(),
    ensures
        i + lower_run(s, i) <= s.len(),
    decreases s.len() - i,
{
    if 0 <= i < s.len() && is_lower(s[i]) {
        lemma_lower_run_le(s, i + 1);
    }
}

/// Every character inside a digit run is a digit.
proof fn lemma_digit_run_chars(s: Seq<char>, i: int, k: int)
    requires
        i <= k < i + digit_run(s, i),
    ensures
        is_digit(s[k]),
    decreases s.len() - i,
{
    if 0 <= i < s.len() && is_digit(s[i]) {
        if k > i {
            lemma_digit_run_chars(s, i + 1, k);
        }
    }
}

/// The views of a stack of counts.
pub open spec fn views(stack: Seq<ElementCounts>) -> Seq<Map<u32, u64>> {
    stack.map_values(|ec: ElementCounts| ec@)
}

/// A well-formed result map: every key is an element the table knows, and
/// every stored count is positive.
pub open spec fn good_counts(m: Map<u32, u64>) -> bool {
    forall|z: u32| #[trigger] m.dom().contains(z) ==> m[z] >= 1 && atomic_symbol(z) is Some
}

/// Adding atoms of a known element keeps a result map well formed.
proof fn lemma_add_count_good(m: Map<u32, u64>, z: u32, k: int)
    requires
        good_counts(m),
        k == 0 || (k >= 1 && atomic_symbol(z) is Some),
        add_count_fits(m, z, k),
    ensures
        good_counts(spec_add_count(m, z, k)),
{
}

/// Merging two well-formed maps yields a well-formed map.
proof fn lemma_merge_good(base: Map<u32, u64>, addend: Map<u32, u64>, mult: int)
    requires
        mult >= 0,
        good_counts(base),
        good_counts(addend),
        merge_fits(base, addend, mult),
    ensures
        good_counts(spec_merge(base, addend, mult)),
{
    let merged = spec_merge(base, addend, mult);
    assert forall|z: u32| #[trigger] merged.dom().contains(z) implies merged[z] >= 1
        && atomic_symbol(z) is Some by {
        crate::counts::lemma_merge_count(base, addend, mult, z);
        assert(mult * count_of(addend, z) >= 0) by (nonlinear_arith)
            requires
                mult >= 0,
                count_of(addend, z) >= 0,
        ;
    }
}

/// One group is merged into the one below it when a closing bracket (with
/// its optional multiplier) is read; an element token adds to the top
/// group; the parse ends at the end of the input or at a hydrate marker.
pub open spec fn spec_parse_loop(s: Seq<char>, i: int, stack: Seq<Map<u32, u64>>) -> SpecParsed
    decreases s.len() - i,
    via spec_parse_loop_decreases
{
    if i < 0 || i > s.len() || stack.len() < 1 {
        Err(ParseError::InvalidSymbol)
    } else if i == s.len() || s[i] == '*' {
        spec_finish(s, i, stack)
    } else if is_opening(s[i]) {
        spec_parse_loop(s, i + 1, stack.push(Map::empty()))
    } else if is_closing(s[i]) {
        if stack.len() < 2 {
            Err(ParseError::UnmatchedClosing)
        } else {
            let j = i + 1 + digit_run(s, i + 1);
            let mult = run_mult(s, i + 1);
            if mult > u64::MAX {
                Err(ParseError::Overflow)
            } else {
                let top = stack.last();
                let rest = stack.drop_last();
                let outer = rest.last();
                if !merge_fits(outer, top, mult) {
                    Err(ParseError::Overflow)
                } else {
                    spec_parse_loop(s, j, rest.drop_last().push(spec_merge(outer, top, mult)))
                }
            }
        }
    } else if is_upper(s[i]) {
        let j = i + 1 + lower_run(s, i + 1);
        match symbol_number(s.subrange(i, j)) {
            None => Err(ParseError::InvalidSymbol),
            Some(z) => {
                let j2 = j + digit_run(s, j);
                let mult = run_mult(s, j);
                if mult > u64::MAX {
                    Err(ParseError::Overflow)
                } else {
                    let top = stack.last();
                    if !add_count_fits(top, z, mult) {
                        Err(ParseError::Overflow)
                    } else {
                        spec_parse_loop(s, j2, stack.drop_last().push(spec_add_count(top, z, mult)))
                    }
                }
            },
        }
    } else {
        Err(ParseError::InvalidSymbol)
    }
}

#[via_fn]
proof fn spec_parse_loop_decreases(s: Seq<char>, i: int, stack: Seq<Map<u32, u64>>) {
    if 0 <= i < s.len() {
        if i + 1 <= s.len() {
            lemma_digit_run_le(s, i + 1);
            lemma_lower_run_le(s, i + 1);
            let j = i + 1 + lower_run(s, i + 1);
            if j <= s.len() {
                lemma_digit_run_le(s, j);
            }
        }
    }
}

/// At the end of the main loop exactly the root group may remain; a `*`
/// introduces the hydrate suffix.
pub open spec fn spec_finish(s: Seq<char>, i: int, stack: Seq<Map<u32, u64>>) -> SpecParsed {
    if stack.len() != 1 {
        Err(ParseError::UnclosedGroup)
    } else if i >= s.len() {
        Ok(stack[0])
    } else {
        spec_hydrate(s, i + 1, stack[0])
    }
}

/// A hydrate suffix is an optional multiplier and then exactly `H2O` ending
/// the input; it adds `2*N` hydrogen and `N` oxygen atoms.
pub open spec fn spec_hydrate(s: Seq<char>, i: int, m: Map<u32, u64>) -> SpecParsed {
    let j = i + digit_run(s, i);
    let mult = run_mult(s, i);
    if mult > u64::MAX {
        Err(ParseError::Overflow)
    } else if !(j + 3 <= s.len() && s[j] == 'H' && s[j + 1] == '2' && s[j + 2] == 'O') {
        Err(ParseError::InvalidHydrate)
    } else if j + 3 < s.len() {
        Err(ParseError::TrailingInput)
    } else {
        match (symbol_number("H"@), symbol_number("O"@)) {
            (Some(h), Some(o)) => {
                if 2 * mult > u64::MAX || !add_count_fits(m, h, 2 * mult) {
                    Err(ParseError::Overflow)
                } else {
                    let m2 = spec_add_count(m, h, 2 * mult);
                    if !add_count_fits(m2, o, mult) {
                        Err(ParseError::Overflow)
                    } else {
                        Ok(spec_add_count(m2, o, mult))
                    }
                }
            },
            _ => Err(ParseError::InvalidHydrate),
        }
    }
}

/// What parsing a whole formula yields.
pub open spec fn spec_parse(s: Seq<char>) -> SpecParsed {
    spec_parse_loop(s, 0, seq![Map::empty()])
}

/// Scans past the digit run starting at `i`.
fn scan_digits(s: &str, i: usize, n: usize) -> (j: usize)
    requires
        n == s@.len(),
        i <= n,
    ensures
        j == i + digit_run(s@, i as int),
        i <= j <= n,
{
    let mut j: usize = i;
    loop
        invariant
            n == s@.len(),
            i <= j <= n,
            digit_run(s@, i as int) == (j - i) + digit_run(s@, j as int),
        ensures
            j == i + digit_run(s@, i as int),
            i <= j <= n,
        decreases n - j,
    {
        if j >= n {
            break;
        }
        let c = s.get_char(j);
        if !(('0' as u32) <= (c as u32) && (c as u32) <= ('9' as u32)) {
            break;
        }
        j = j + 1;
    }
    j
}

/// Scans past the lowercase run starting at `i`.
fn scan_lowers(s: &str, i: usize, n: usize) -> (j: usize)
    requires
        n == s@.len(),
        i <= n,
    ensures
        j == i + lower_run(s@, i as int),
        i <= j <= n,
{
    let mut j: usize = i;
    loop
        invariant
            n == s@.len(),
            i <= j <= n,
            lower_run(s@, i as int) == (j - i) + lower_run(s@, j as int),
        ensures
            j == i + lower_run(s@, i as int),
            i <= j <= n,
        decreases n - j,
    {
        if j >= n {
            break;
        }
        let c = s.get_char(j);
        if !(('a' as u32) <= (c as u32) && (c as u32) <= ('z' as u32)) {
            break;
        }
        j = j + 1;
    }
    j
}

/// The value a digit prefix spells never shrinks as digits are appended.
proof fn lemma_digits_value_grows(s: Seq<char>, i: int, a: int, b: int)
    requires
        i <= a <= b,
        forall|k: int| i <= k < b ==> is_digit(#[trigger] s[k]),
    ensures
        0 <= digits_value(s, i, a) <= digits_value(s, i, b),
    decreases b - a,
{
    if a == b {
        lemma_digits_value_nonneg(s, i, a);
    } else {
        lemma_digits_value_grows(s, i, a, b - 1);
        lemma_digits_value_nonneg(s, i, b - 1);
    }
}

/// The value of an all-digit range is nonnegative.
proof fn lemma_digits_value_nonneg(s: Seq<char>, i: int, j: int)
    requires
        forall|k: int| i <= k < j ==> is_digit(#[trigger] s[k]),
    ensures
        digits_value(s, i, j) >= 0,
    decreases j - i,
{
    if i < j {
        lemma_digits_value_nonneg(s, i, j - 1);
    }
}

/// Reads the digits of `s[i..j)` as a 64-bit number.
pub fn digits_to_u64(s: &str, i: usize, j: usize) -> (r: Option<u64>)
    requires
        i <= j <= s@.len(),
        forall|k: int| i <= k < j ==> is_digit(#[trigger] s@[k]),
    ensures
        match r {
            Some(v) => digits_value(s@, i as int, j as int) <= u64::MAX && v == digits_value(
                s@,
                i as int,
                j as int,
            ),
            None => digits_value(s@, i as int, j as int) > u64::MAX,
        },
{
    let mut v: u64 = 0;
    let mut k: usize = i;
    while k < j
        invariant
            i <= k <= j <= s@.len(),
            forall|t: int| i <= t < j ==> is_digit(#[trigger] s@[t]),
            v == digits_value(s@, i as int, k as int),
        decreases j - k,
    {
        let c = s.get_char(k);
        let d = (c as u32) - ('0' as u32);
        let next = match v.checked_mul(10) {
            Some(w) => w.checked_add(d as u64),
            None => None,
        };
        match next {
            Some(w) => {
                v = w;
            },
            None => {
                proof {
                    lemma_digits_value_nonneg(s@, i as int, k as int);
                    assert(digits_value(s@, i as int, k as int + 1) > u64::MAX);
                    lemma_digits_value_grows(s@, i as int, k as int + 1, j as int);
                }
                return None;
            },
        }
        k = k + 1;
    }
    Some(v)
}

/// Reads the optional multiplier whose digits start at `i`; `None` reports
/// a value over 64 bits.
fn read_mult(s: &str, i: usize, n: usize) -> (r: (usize, Option<u64>))
    requires
        n == s@.len(),
        i <= n,
    ensures
        r.0 == i + digit_run(s@, i as int),
        i <= r.0 <= n,
        match r.1 {
            Some(v) => run_mult(s@, i as int) <= u64::MAX && v == run_mult(s@, i as int),
            None => run_mult(s@, i as int) > u64::MAX,
        },
{
    let j = scan_digits(s, i, n);
    if j == i {
        (j, Some(1))
    } else {
        proof {
            assert forall|k: int| i <= k < j implies is_digit(#[trigger] s@[k]) by {
                lemma_digit_run_chars(s@, i as int, k);
            }
        }
        let m = digits_to_u64(s, i, j);
        (j, m)
    }
}

/// Parses a chemical formula into atom counts keyed by atomic number.
///
/// The result is exactly what `spec_parse` assigns to the input, for
/// successes and for every error case alike.
pub fn parse_formula(formula: &str) -> (r: Result<ElementCounts, ParseError>)
    ensures
        match r {
            Ok(m) => m.wf() && spec_parse(formula@) == Ok::<Map<u32, u64>, ParseError>(m@)
                && good_counts(m@),
            Err(e) => spec_parse(formula@) == Err::<Map<u32, u64>, ParseError>(e),
        },
{
    let ghost s = formula@;
    let n = formula.unicode_len();
    let mut stack: Vec<ElementCounts> = Vec::new();
    stack.push(ElementCounts::new());
    proof {
        assert(views(stack@) =~= seq![Map::<u32, u64>::empty()]);
    }
    let mut i: usize = 0;
    loop
        invariant
            n == s.len(),
            s == formula@,
            0 <= i <= n,
            stack@.len() >= 1,
            forall|k: int| 0 <= k < stack@.len() ==> (#[trigger] stack@[k]).wf(),
            forall|k: int| 0 <= k < stack@.len() ==> good_counts((#[trigger] stack@[k])@),
            spec_parse(s) == spec_parse_loop(s, i as int, views(stack@)),
        ensures
            n == s.len(),
            0 <= i <= n,
            stack@.len() >= 1,
            forall|k: int| 0 <= k < stack@.len() ==> (#[trigger] stack@[k]).wf(),
            forall|k: int| 0 <= k < stack@.len() ==> good_counts((#[trigger] stack@[k])@),
            spec_parse(s) == spec_parse_loop(s, i as int, views(stack@)),
            i == n || s[i as int] == '*',
        decreases n - i,
    {
        if i >= n {
            break;
        }
        let c = formula.get_char(i);
        if c == '*' {
            break;
        }
        let ghost v0 = views(stack@);
        if c == '(' || c == '[' || c == '{' {
            stack.push(ElementCounts::new());
            proof {
                assert(views(stack@) =~= v0.push(Map::<u32, u64>::empty()));
            }
            i = i + 1;
        } else if c == ')' || c == ']' || c == '}' {
            if stack.len() == 1 {
                proof {
                    assert(spec_parse_loop(s, i as int, v0) == Err::<Map<u32, u64>, ParseError>(
                        ParseError::UnmatchedClosing,
                    ));
                }
                return Err(ParseError::UnmatchedClosing);
            }
            let (j, mult_opt) = read_mult(formula, i + 1, n);
            let mult = match mult_opt {
                Some(v) => v,
                None => {
                    return Err(ParseError::Overflow);
                },
            };
            let top = stack.pop().unwrap();
            let mut outer = stack.pop().unwrap();
            proof {
                assert(top@ == v0.last());
                assert(outer@ == v0.drop_last().last());
            }
            match outer.add_scaled(&top, mult) {
                Ok(()) => {
                    proof {
                        lemma_merge_good(v0.drop_last().last(), v0.last(), mult as int);
                    }
                },
                Err(()) => {
                    return Err(ParseError::Overflow);
                },
            }
            stack.push(outer);
            proof {
                assert(views(stack@) =~= v0.drop_last().drop_last().push(
                    spec_merge(v0.drop_last().last(), v0.last(), mult as int),
                ));
            }
            i = j;
        } else if ('A' as u32) <= (c as u32) && (c as u32) <= ('Z' as u32) {
            let j = scan_lowers(formula, i + 1, n);
            let sym = formula.substring_char(i, j);
            let z = match symbol_to_number(sym) {
                Some(z) => z,
                None => {
                    return Err(ParseError::InvalidSymbol);
                },
            };
            let (j2, mult_opt) = read_mult(formula, j, n);
            let mult = match mult_opt {
                Some(v) => v,
                None => {
                    return Err(ParseError::Overflow);
                },
            };
            let mut top = stack.pop().unwrap();
            proof {
                assert(top@ == v0.last());
            }
            match top.add_count(z, mult) {
                Ok(()) => {
                    proof {
                        lemma_symbol_number_found(s.subrange(i as int, j as int), 1, z);
                        lemma_add_count_good(v0.last(), z, mult as int);
                    }
                },
                Err(()) => {
                    return Err(ParseError::Overflow);
                },
            }
            stack.push(top);
            proof {
                assert(views(stack@) =~= v0.drop_last().push(
                    spec_add_count(v0.last(), z, mult as int),
                ));
            }
            i = j2;
        } else {
            proof {
                assert(!is_opening(s[i as int]) && !is_closing(s[i as int]) && !is_upper(
                    s[i as int],
                ));
            }
            return Err(ParseError::InvalidSymbol);
        }
    }
    // Main loop done: at the end of input or at a hydrate marker.
    if stack.len() != 1 {
        return Err(ParseError::UnclosedGroup);
    }
    let ghost vfin = views(stack@);
    let mut root = stack.pop().unwrap();
    proof {
        assert(root@ == vfin[0]);
    }
    if i >= n {
        return Ok(root);
    }
    // Hydrate suffix.
    let ghost m0 = root@;
    let hi = i + 1;
    let (j, mult_opt) = read_mult(formula, hi, n);
    let mult = match mult_opt {
        Some(v) => v,
        None => {
            return Err(ParseError::Overflow);
        },
    };
    let well_formed = n - j >= 3 && formula.get_char(j) == 'H' && formula.get_char(j + 1) == '2'
        && formula.get_char(j + 2) == 'O';
    if !well_formed {
        return Err(ParseError::InvalidHydrate);
    }
    if n - j > 3 {
        return Err(ParseError::TrailingInput);
    }
    let h = match symbol_to_number("H") {
        Some(h) => h,
        None => {
            return Err(ParseError::InvalidHydrate);
        },
    };
    let o = match symbol_to_number("O") {
        Some(o) => o,
        None => {
            return Err(ParseError::InvalidHydrate);
        },
    };
    let hmult = match mult.checked_mul(2) {
        Some(v) => v,
        None => {
            return Err(ParseError::Overflow);
        },
    };
    let ghost m_pre_h = root@;
    match root.add_count(h, hmult) {
        Ok(()) => {
            proof {
                lemma_symbol_number_found("H"@, 1, h);
                lemma_add_count_good(m_pre_h, h, hmult as int);
            }
        },
        Err(()) => {
            return Err(ParseError::Overflow);
        },
    }
    let ghost m_pre_o = root@;
    match root.add_count(o, mult) {
        Ok(()) => {
            proof {
                lemma_symbol_number_found("O"@, 1, o);
                lemma_add_count_good(m_pre_o, o, mult as int);
            }
        },
        Err(()) => {
            return Err(ParseError::Overflow);
        },
    }
    proof {
        assert(root@ == spec_add_count(spec_add_count(m0, h, 2 * mult as int), o, mult as int));
    }
    Ok(root)
}

} // verus!
