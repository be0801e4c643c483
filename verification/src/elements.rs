//! The element table: chemical symbols and atomic numbers.
//!
//! The periodic-table data lives in an outside crate and is reached through
//! one trusted wrapper that maps an atomic number to its symbol. The reverse
//! lookup, from a symbol to its atomic number, is a verified scan over that
//! wrapper, so everything the parser learns about a symbol is stated against
//! the single name `atomic_symbol`.

use vstd::prelude::*;

verus! {

/// Highest atomic number the table knows.
pub const MAX_ATOMIC_NUMBER: u32 = 118;

/// The symbol the periodic table assigns to atomic number `z`,
/// or `None` when `z` is not the number of a known element.
pub uninterp spec fn atomic_symbol(z: u32) -> Option<Seq<char>>;

/// Relies on `periodic_table_on_an_enum::Element::from_atomic_number` and
/// `Element::get_symbol`: the table is fixed data compiled into the crate,
/// so the symbol depends on the atomic number alone, and `from_atomic_number`
/// returns `Some` exactly for the numbers 1 through 118.
#[verifier::external_body]
fn element_symbol(z: u32) -> (r: Option<String>)
    ensures
        match r {
            Some(s) => atomic_symbol(z) == Some(s@) && 1 <= z <= MAX_ATOMIC_NUMBER,
            None => atomic_symbol(z) is None && !(1 <= z <= MAX_ATOMIC_NUMBER),
        },
{
    periodic_table_on_an_enum::Element::from_atomic_number(z as usize)
        .map(|e| e.get_symbol().to_string())
}

/// The smallest atomic number at or above `z` whose symbol is `s`.
pub open spec fn symbol_number_from(s: Seq<char>, z: u32) -> Option<u32>
    decreases MAX_ATOMIC_NUMBER + 1 - z,
{
    if z < 1 || z > MAX_ATOMIC_NUMBER {
        None
    } else if atomic_symbol(z) == Some(s) {
        Some(z)
    } else {
        symbol_number_from(s, (z + 1) as u32)
    }
}

/// The atomic number of the element whose symbol is `s`.
pub open spec fn symbol_number(s: Seq<char>) -> Option<u32> {
    symbol_number_from(s, 1)
}

/// Looks a chemical symbol up in the element table.
pub fn symbol_to_number(sym: &str) -> (r: Option<u32>)
    ensures
        r == symbol_number(sym@),
{
    let query: String = sym.to_owned();
    let mut z: u32 = 1;
    loop
        invariant
            1 <= z <= MAX_ATOMIC_NUMBER + 1,
            query@ == sym@,
            symbol_number(sym@) == symbol_number_from(sym@, z),
        decreases MAX_ATOMIC_NUMBER + 1 - z,
    {
        if z > MAX_ATOMIC_NUMBER {
            return None;
        }
        match element_symbol(z) {
            Some(candidate) => {
                if candidate == query {
                    return Some(z);
                }
            },
            None => {},
        }
        z = z + 1;
    }
}

/// A chemical element: its atomic number and the symbol the table
/// assigns to that number.
#[derive(Debug, Clone)]
pub struct Element {
    pub atomic_number: u32,
    pub symbol: String,
}

impl Element {
    /// A well-formed element carries a known atomic number and the
    /// symbol that the table assigns to it.
    pub open spec fn wf(&self) -> bool {
        &&& 1 <= self.atomic_number <= MAX_ATOMIC_NUMBER
        &&& atomic_symbol(self.atomic_number) == Some(self.symbol@)
    }

    /// Looks an element up by symbol.
    pub fn from_symbol(sym: &str) -> (r: Option<Element>)
        ensures
            match r {
                Some(e) => e.wf() && symbol_number(sym@) == Some(e.atomic_number)
                    && e.symbol@ == sym@,
                None => symbol_number(sym@) is None,
            },
    {
        match symbol_to_number(sym) {
            Some(z) => {
                proof {
                    lemma_symbol_number_found(sym@, 1, z);
                }
                Some(Element { atomic_number: z, symbol: sym.to_owned() })
            },
            None => None,
        }
    }

    /// Looks an element up by atomic number.
    pub fn from_atomic_number(z: u32) -> (r: Option<Element>)
        ensures
            match r {
                Some(e) => e.wf() && e.atomic_number == z,
                None => !(1 <= z <= MAX_ATOMIC_NUMBER),
            },
    {
        match element_symbol(z) {
            Some(s) => Some(Element { atomic_number: z, symbol: s }),
            None => None,
        }
    }
}

/// When the scan reports `z`, the table really maps `z` to the queried symbol.
pub proof fn lemma_symbol_number_found(s: Seq<char>, lo: u32, z: u32)
    requires
        1 <= lo,
        symbol_number_from(s, lo) == Some(z),
    ensures
        atomic_symbol(z) == Some(s),
        1 <= z <= MAX_ATOMIC_NUMBER,
    decreases MAX_ATOMIC_NUMBER + 1 - lo,
{
    if lo <= MAX_ATOMIC_NUMBER && atomic_symbol(lo) != Some(s) {
        lemma_symbol_number_found(s, (lo + 1) as u32, z);
    }
}

/// Fetches the element with the given atomic number.
pub fn get_element_by_id(id: u8) -> (r: Result<Element, String>)
    ensures
        match r {
            Ok(e) => e.wf() && e.atomic_number == id as u32,
            Err(_) => !(1 <= id as u32 <= MAX_ATOMIC_NUMBER),
        },
{
    match Element::from_atomic_number(id as u32) {
        Some(e) => Ok(e),
        None => Err("Invalid atomic number".to_owned()),
    }
}

} // verus!
