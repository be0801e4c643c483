//! Atom counts: a mapping from an element (by atomic number) to how many
//! atoms of it a compound or a reaction side holds.
//!
//! The executable type is an association vector with distinct keys; its
//! mathematical view is a `Map<u32, u64>`. No zero count is ever stored:
//! an addition of zero atoms changes nothing, and a lookup of a missing
//! element yields zero.

use vstd::prelude::*;

verus! {

/// The count of `z` in `m`, zero when absent.
pub open spec fn count_of(m: Map<u32, u64>, z: u32) -> int {
    if m.dom().contains(z) {
        m[z] as int
    } else {
        0
    }
}

/// `m` with `k` more atoms of `z`; adding zero atoms stores nothing.
pub open spec fn spec_add_count(m: Map<u32, u64>, z: u32, k: int) -> Map<u32, u64> {
    if k == 0 {
        m
    } else {
        m.insert(z, (count_of(m, z) + k) as u64)
    }
}

/// Whether `k` more atoms of `z` still fit in the count type.
pub open spec fn add_count_fits(m: Map<u32, u64>, z: u32, k: int) -> bool {
    count_of(m, z) + k <= u64::MAX
}

/// `base` with every count of `addend`, scaled by `mult`, added in; an
/// element whose scaled contribution is zero gains no entry.
pub open spec fn spec_merge(base: Map<u32, u64>, addend: Map<u32, u64>, mult: int) -> Map<
    u32,
    u64,
> {
    Map::new(
        |z: u32| base.dom().contains(z) || (addend.dom().contains(z) && mult * count_of(
            addend,
            z,
        ) > 0),
        |z: u32| (count_of(base, z) + mult * count_of(addend, z)) as u64,
    )
}

/// Whether the merged counts all still fit in the count type.
pub open spec fn merge_fits(base: Map<u32, u64>, addend: Map<u32, u64>, mult: int) -> bool {
    forall|z: u32|
        addend.dom().contains(z) ==> count_of(base, z) + mult * count_of(addend, z) <= u64::MAX
}

/// The map an association list denotes.
pub open spec fn map_of(s: Seq<(u32, u64)>) -> Map<u32, u64>
    decreases s.len(),
{
    if s.len() == 0 {
        Map::empty()
    } else {
        map_of(s.drop_last()).insert(s.last().0, s.last().1)
    }
}

/// Atom counts for a set of elements, keyed by atomic number.
#[derive(Debug, Clone, PartialEq, Eq)]
pub struct ElementCounts {
    entries: Vec<(u32, u64)>,
}

impl View for ElementCounts {
    type V = Map<u32, u64>;

    closed spec fn view(&self) -> Map<u32, u64> {
        map_of(self.entries@)
    }
}

/// A key of the association list is in the denoted map's domain, with the
/// rightmost value; with distinct keys, the only value.
proof fn lemma_map_of_contains(s: Seq<(u32, u64)>, z: u32)
    ensures
        map_of(s).dom().contains(z) <==> exists|i: int| 0 <= i < s.len() && s[i].0 == z,
    decreases s.len(),
{
    if s.len() > 0 {
        lemma_map_of_contains(s.drop_last(), z);
        if map_of(s).dom().contains(z) {
            if s.last().0 == z {
                assert(s[s.len() - 1].0 == z);
            } else {
                let i = choose|i: int| 0 <= i < s.drop_last().len() && s.drop_last()[i].0 == z;
                assert(s[i].0 == z);
            }
        }
        if exists|i: int| 0 <= i < s.len() && s[i].0 == z {
            let i = choose|i: int| 0 <= i < s.len() && s[i].0 == z;
            if i < s.len() - 1 {
                assert(s.drop_last()[i].0 == z);
            }
        }
    }
}

/// With distinct keys, the denoted map sends each listed key to its value.
proof fn lemma_map_of_index(s: Seq<(u32, u64)>, i: int)
    requires
        distinct_keys(s),
        0 <= i < s.len(),
    ensures
        map_of(s).dom().contains(s[i].0),
        map_of(s)[s[i].0] == s[i].1,
    decreases s.len(),
{
    lemma_map_of_contains(s, s[i].0);
    if i < s.len() - 1 {
        assert(forall|a: int, b: int|
            0 <= a < b < s.drop_last().len() ==> s.drop_last()[a].0 != s.drop_last()[b].0);
        lemma_map_of_index(s.drop_last(), i);
        assert(s.last().0 != s[i].0);
    }
}

/// No key appears twice.
pub open spec fn distinct_keys(s: Seq<(u32, u64)>) -> bool {
    forall|i: int, j: int| 0 <= i < j < s.len() ==> s[i].0 != s[j].0
}

/// Every stored count is positive.
pub open spec fn positive_counts(s: Seq<(u32, u64)>) -> bool {
    forall|i: int| 0 <= i < s.len() ==> (#[trigger] s[i]).1 >= 1
}

impl ElementCounts {
    /// The association list never repeats a key, and never stores a zero
    /// count.
    pub closed spec fn wf(&self) -> bool {
        distinct_keys(self.entries@) && positive_counts(self.entries@)
    }

    /// How the entry sequence relates to the map view.
    pub proof fn lemma_view_entries(&self)
        requires
            self.wf(),
        ensures
            distinct_keys(self.entries_view()),
            map_of(self.entries_view()) == self@,
            self@.dom().finite(),
            self@.dom().len() == self.entries_view().len(),
            forall|i: int|
                0 <= i < self.entries_view().len() ==> self@.dom().contains(
                    #[trigger] self.entries_view()[i].0,
                ) && self@[self.entries_view()[i].0] == self.entries_view()[i].1,
            forall|z: u32|
                self@.dom().contains(z) ==> exists|i: int|
                    0 <= i < self.entries_view().len() && self.entries_view()[i].0 == z,
            forall|z: u32| #[trigger] self@.dom().contains(z) ==> self@[z] >= 1,
    {
        lemma_map_of_len(self.entries@);
        assert forall|i: int| 0 <= i < self.entries_view().len() implies self@.dom().contains(
            #[trigger] self.entries_view()[i].0,
        ) && self@[self.entries_view()[i].0] == self.entries_view()[i].1 by {
            lemma_map_of_index(self.entries@, i);
        }
        assert forall|z: u32| self@.dom().contains(z) implies exists|i: int|
            0 <= i < self.entries_view().len() && self.entries_view()[i].0 == z by {
            lemma_map_of_contains(self.entries@, z);
            let i = choose|i: int| 0 <= i < self.entries@.len() && self.entries@[i].0 == z;
            assert(0 <= i < self.entries_view().len() && self.entries_view()[i].0 == z);
        }
        assert forall|z: u32| #[trigger] self@.dom().contains(z) implies self@[z] >= 1 by {
            lemma_map_of_contains(self.entries@, z);
            let i = choose|i: int| 0 <= i < self.entries@.len() && self.entries@[i].0 == z;
            lemma_map_of_index(self.entries@, i);
        }
    }

    /// An empty set of counts.
    pub fn new() -> (r: ElementCounts)
        ensures
            r.wf(),
            r@ == Map::<u32, u64>::empty(),
    {
        ElementCounts { entries: Vec::new() }
    }

    /// How many distinct elements are counted.
    pub fn len(&self) -> (r: usize)
        requires
            self.wf(),
        ensures
            r == self@.dom().len(),
    {
        proof {
            lemma_map_of_len(self.entries@);
        }
        self.entries.len()
    }

    /// The count for element `z`; zero when `z` is absent.
    pub fn get(&self, z: u32) -> (r: u64)
        requires
            self.wf(),
        ensures
            r == count_of(self@, z),
    {
        let mut i: usize = 0;
        while i < self.entries.len()
            invariant
                self.wf(),
                0 <= i <= self.entries@.len(),
                forall|j: int| 0 <= j < i ==> self.entries@[j].0 != z,
            decreases self.entries@.len() - i,
        {
            if self.entries[i].0 == z {
                proof {
                    lemma_map_of_index(self.entries@, i as int);
                }
                return self.entries[i].1;
            }
            i = i + 1;
        }
        proof {
            lemma_map_of_contains(self.entries@, z);
        }
        0
    }

    /// Whether element `z` has an entry.
    pub fn contains(&self, z: u32) -> (r: bool)
        requires
            self.wf(),
        ensures
            r == self@.dom().contains(z),
    {
        let mut i: usize = 0;
        proof {
            lemma_map_of_contains(self.entries@, z);
        }
        while i < self.entries.len()
            invariant
                self.wf(),
                0 <= i <= self.entries@.len(),
                self@.dom().contains(z) <==> exists|j: int|
                    0 <= j < self.entries@.len() && self.entries@[j].0 == z,
                forall|j: int| 0 <= j < i ==> self.entries@[j].0 != z,
            decreases self.entries@.len() - i,
        {
            if self.entries[i].0 == z {
                return true;
            }
            i = i + 1;
        }
        false
    }

    /// The entries as pairs of atomic number and count, in storage order.
    pub fn entry_at(&self, i: usize) -> (r: (u32, u64))
        requires
            self.wf(),
            i < self.entries_view().len(),
        ensures
            r == self.entries_view()[i as int],
            self@.dom().contains(r.0),
            self@[r.0] == r.1,
    {
        proof {
            lemma_map_of_index(self.entries@, i as int);
        }
        self.entries[i]
    }

    /// How many entries are stored (one per distinct element).
    pub fn entry_count(&self) -> (r: usize)
        ensures
            r == self.entries_view().len(),
    {
        self.entries.len()
    }

    /// The stored entry sequence (for contracts that walk entries).
    pub closed spec fn entries_view(&self) -> Seq<(u32, u64)> {
        self.entries@
    }

    /// An exact copy (entry for entry, so every view is preserved).
    pub fn duplicate(&self) -> (r: ElementCounts)
        ensures
            r.entries_view() == self.entries_view(),
            r@ == self@,
            r.wf() == self.wf(),
    {
        let mut entries: Vec<(u32, u64)> = Vec::new();
        let n = self.entries.len();
        let mut i: usize = 0;
        while i < n
            invariant
                n == self.entries@.len(),
                0 <= i <= n,
                entries@ == self.entries@.take(i as int),
            decreases n - i,
        {
            entries.push(self.entries[i]);
            proof {
                assert(entries@ =~= self.entries@.take(i as int + 1));
            }
            i = i + 1;
        }
        proof {
            assert(self.entries@.take(n as int) == self.entries@);
        }
        ElementCounts { entries }
    }

    /// Adds `k` atoms of element `z`, or reports that the count overflows;
    /// adding zero atoms stores nothing.
    pub fn add_count(&mut self, z: u32, k: u64) -> (r: Result<(), ()>)
        requires
            old(self).wf(),
        ensures
            final(self).wf(),
            match r {
                Ok(()) => add_count_fits(old(self)@, z, k as int) && final(self)@
                    == spec_add_count(old(self)@, z, k as int),
                Err(()) => !add_count_fits(old(self)@, z, k as int) && final(self)@ == old(self)@,
            },
    {
        if k == 0 {
            return Ok(());
        }
        let ghost s0 = self.entries@;
        let mut i: usize = 0;
        while i < self.entries.len()
            invariant
                s0 == old(self).entries@,
                self.entries@ == s0,
                distinct_keys(s0),
                positive_counts(s0),
                k >= 1,
                0 <= i <= s0.len(),
                forall|j: int| 0 <= j < i ==> s0[j].0 != z,
            decreases s0.len() - i,
        {
            if self.entries[i].0 == z {
                proof {
                    lemma_map_of_index(s0, i as int);
                }
                let cur = self.entries[i].1;
                match cur.checked_add(k) {
                    Some(v) => {
                        self.entries[i] = (z, v);
                        proof {
                            lemma_map_of_update(s0, i as int, v);
                            assert(map_of(self.entries@) =~= spec_add_count(map_of(s0), z, k as int));
                        }
                        return Ok(());
                    },
                    None => {
                        return Err(());
                    },
                }
            }
            i = i + 1;
        }
        proof {
            lemma_map_of_contains(s0, z);
        }
        self.entries.push((z, k));
        proof {
            assert(self.entries@.drop_last() == s0);
            assert(map_of(self.entries@) =~= spec_add_count(map_of(s0), z, k as int));
        }
        Ok(())
    }

    /// Adds every count of `other`, scaled by `mult`, into `self`;
    /// reports an overflowing count instead.
    pub fn add_scaled(&mut self, other: &ElementCounts, mult: u64) -> (r: Result<(), ()>)
        requires
            old(self).wf(),
            other.wf(),
        ensures
            final(self).wf(),
            match r {
                Ok(()) => merge_fits(old(self)@, other@, mult as int) && final(self)@ == spec_merge(
                    old(self)@,
                    other@,
                    mult as int,
                ),
                Err(()) => !merge_fits(old(self)@, other@, mult as int),
            },
    {
        let ghost m0 = self@;
        let ghost os = other.entries@;
        let mut i: usize = 0;
        while i < other.entries.len()
            invariant
                m0 == old(self)@,
                os == other.entries@,
                self.wf(),
                other.wf(),
                0 <= i <= os.len(),
                self@ =~= spec_merge(m0, map_of(os.take(i as int)), mult as int),
                merge_fits(m0, map_of(os.take(i as int)), mult as int),
            decreases os.len() - i,
        {
            let (z, c) = other.entry_at(i);
            proof {
                lemma_map_of_take_next(os, i as int);
                lemma_map_of_contains(os.take(i as int), z);
            }
            let scaled = match mult.checked_mul(c) {
                Some(v) => v,
                None => {
                    proof {
                        lemma_merge_unfit(m0, os, i as int, mult as int);
                    }
                    return Err(());
                },
            };
            let ghost pre = self@;
            match self.add_count(z, scaled) {
                Ok(()) => {
                    proof {
                        lemma_merge_step(m0, os, i as int, mult as int);
                    }
                },
                Err(()) => {
                    proof {
                        lemma_merge_unfit(m0, os, i as int, mult as int);
                    }
                    return Err(());
                },
            }
            i = i + 1;
        }
        proof {
            assert(os.take(os.len() as int) == os);
        }
        Ok(())
    }
}

/// What a merged map counts for any element: the base count plus the
/// scaled addend count.
pub proof fn lemma_merge_count(base: Map<u32, u64>, addend: Map<u32, u64>, mult: int, z: u32)
    requires
        mult >= 0,
        merge_fits(base, addend, mult),
    ensures
        count_of(spec_merge(base, addend, mult), z) == count_of(base, z) + mult * count_of(
            addend,
            z,
        ),
{
    assert(mult * count_of(addend, z) >= 0) by (nonlinear_arith)
        requires
            mult >= 0,
            count_of(addend, z) >= 0,
    ;
    if addend.dom().contains(z) {
        assert(count_of(base, z) + mult * count_of(addend, z) <= u64::MAX);
    } else {
        assert(mult * count_of(addend, z) == 0) by (nonlinear_arith)
            requires
                count_of(addend, z) == 0,
        ;
    }
}

/// Updating one slot of a distinct-key list updates the denoted map at that key.
proof fn lemma_map_of_update(s: Seq<(u32, u64)>, i: int, v: u64)
    requires
        distinct_keys(s),
        0 <= i < s.len(),
    ensures
        map_of(s.update(i, (s[i].0, v))) == map_of(s).insert(s[i].0, v),
    decreases s.len(),
{
    let t = s.update(i, (s[i].0, v));
    if i == s.len() - 1 {
        assert(t.drop_last() == s.drop_last());
        assert(map_of(t) =~= map_of(s).insert(s[i].0, v));
    } else {
        assert(forall|a: int, b: int|
            0 <= a < b < s.drop_last().len() ==> s.drop_last()[a].0 != s.drop_last()[b].0);
        lemma_map_of_update(s.drop_last(), i, v);
        assert(t.drop_last() == s.drop_last().update(i, (s[i].0, v)));
        assert(t.last() == s.last());
        assert(map_of(t) =~= map_of(s).insert(s[i].0, v));
    }
}

/// With distinct keys the denoted map has exactly one slot per entry.
proof fn lemma_map_of_len(s: Seq<(u32, u64)>)
    requires
        distinct_keys(s),
    ensures
        map_of(s).dom().finite(),
        map_of(s).dom().len() == s.len(),
    decreases s.len(),
{
    if s.len() == 0 {
    } else {
        assert(forall|a: int, b: int|
            0 <= a < b < s.drop_last().len() ==> s.drop_last()[a].0 != s.drop_last()[b].0);
        lemma_map_of_len(s.drop_last());
        lemma_map_of_contains(s.drop_last(), s.last().0);
    }
}

/// Taking one more entry inserts that entry into the denoted prefix map.
proof fn lemma_map_of_take_next(s: Seq<(u32, u64)>, i: int)
    requires
        0 <= i < s.len(),
    ensures
        map_of(s.take(i + 1)) == map_of(s.take(i)).insert(s[i].0, s[i].1),
{
    assert(s.take(i + 1).drop_last() == s.take(i));
    assert(s.take(i + 1).last() == s[i]);
}

/// In a distinct-key list, the key at `i` is absent from the prefix before `i`.
proof fn lemma_prefix_missing(s: Seq<(u32, u64)>, i: int)
    requires
        distinct_keys(s),
        0 <= i < s.len(),
    ensures
        !map_of(s.take(i)).dom().contains(s[i].0),
        count_of(map_of(s.take(i)), s[i].0) == 0,
{
    lemma_map_of_contains(s.take(i), s[i].0);
}

/// One merge step: merging the prefix and then adding the next scaled entry
/// equals merging the one-longer prefix.
proof fn lemma_merge_step(m0: Map<u32, u64>, os: Seq<(u32, u64)>, i: int, mult: int)
    requires
        mult >= 0,
        distinct_keys(os),
        0 <= i < os.len(),
        merge_fits(m0, map_of(os.take(i)), mult),
        mult * os[i].1 <= u64::MAX,
        add_count_fits(spec_merge(m0, map_of(os.take(i)), mult), os[i].0, mult * os[i].1),
    ensures
        merge_fits(m0, map_of(os.take(i + 1)), mult),
        spec_add_count(spec_merge(m0, map_of(os.take(i)), mult), os[i].0, mult * os[i].1)
            =~= spec_merge(m0, map_of(os.take(i + 1)), mult),
{
    lemma_map_of_take_next(os, i);
    lemma_prefix_missing(os, i);
    let z = os[i].0;
    let c = os[i].1 as int;
    let pre = map_of(os.take(i));
    let post = map_of(os.take(i + 1));
    assert(count_of(post, z) == c);
    assert(forall|w: u32| w != z ==> count_of(post, w) == count_of(pre, w));
    assert(count_of(spec_merge(m0, pre, mult), z) == count_of(m0, z) + mult * count_of(pre, z));
    assert(mult * c >= 0) by (nonlinear_arith)
        requires
            mult >= 0,
            c >= 0,
    ;
    if mult * c == 0 {
        // A zero contribution leaves the merge unchanged; neither side
        // gains an entry for z.
        assert(spec_add_count(spec_merge(m0, pre, mult), z, mult * c) =~= spec_merge(
            m0,
            post,
            mult,
        ));
    } else {
        assert(spec_add_count(spec_merge(m0, pre, mult), z, mult * c) =~= spec_merge(
            m0,
            post,
            mult,
        ));
    }
}

/// If the next scaled entry does not fit, the whole merge does not fit.
proof fn lemma_merge_unfit(m0: Map<u32, u64>, os: Seq<(u32, u64)>, i: int, mult: int)
    requires
        mult >= 0,
        distinct_keys(os),
        0 <= i < os.len(),
        merge_fits(m0, map_of(os.take(i)), mult),
        count_of(m0, os[i].0) + mult * os[i].1 > u64::MAX || mult * os[i].1 > u64::MAX,
    ensures
        !merge_fits(m0, map_of(os), mult),
{
    lemma_prefix_missing(os, i);
    let z = os[i].0;
    lemma_map_of_index(os, i);
    assert(count_of(map_of(os), z) == os[i].1);
    assert(count_of(m0, z) + mult * count_of(map_of(os), z) > u64::MAX) by {
        assert(mult * os[i].1 >= 0) by (nonlinear_arith)
            requires mult >= 0;
        assert(count_of(m0, z) >= 0);
    }
}

} // verus!
