//! The collection of recorded results: a set, kept as an ordered list.

use crate::types::PrimeResult;
use vstd::prelude::*;
use vstd::seq_lib::seq_to_set_is_finite;

verus! {

/// The order in which results are listed: by number, then by time, then the
/// verdict `not prime` before `prime`.
pub open spec fn listed_before(a: PrimeResult, b: PrimeResult) -> bool {
    ||| a.number < b.number
    ||| a.number == b.number && a.calculation_time_micros < b.calculation_time_micros
    ||| a.number == b.number && a.calculation_time_micros == b.calculation_time_micros
        && !a.is_prime && b.is_prime
}

/// Every entry of `entries` is listed before each entry that follows it.
pub open spec fn strictly_listed(entries: Seq<PrimeResult>) -> bool {
    forall|i: int, j: int| 0 <= i < j < entries.len() ==> listed_before(entries[i], entries[j])
}

/// A set of results. A result that equals one already held, in all three
/// fields, is not held twice.
pub struct ResultSet {
    entries: Vec<PrimeResult>,
}

impl View for ResultSet {
    type V = Set<PrimeResult>;

    closed spec fn view(&self) -> Set<PrimeResult> {
        self.entries@.to_set()
    }
}

impl ResultSet {
    /// The entries are listed in order, which leaves no room for duplicates.
    pub closed spec fn wf(&self) -> bool {
        strictly_listed(self.entries@)
    }

    /// A set of results is finite.
    pub proof fn lemma_finite(&self)
        ensures
            self@.finite(),
    {
        seq_to_set_is_finite(self.entries@);
    }

    /// The empty set.
    pub fn new() -> (set: Self)
        ensures
            set.wf(),
            set@ == Set::<PrimeResult>::empty(),
    {
        let set = ResultSet { entries: Vec::new() };
        assert(set@ =~= Set::<PrimeResult>::empty());
        set
    }

    /// How many results the set holds.
    pub fn len(&self) -> (count: usize)
        requires
            self.wf(),
        ensures
            count == self@.len(),
    {
        proof {
            assert forall|i: int, j: int|
                0 <= i < self.entries@.len() && 0 <= j < self.entries@.len() && i != j implies self.entries@[i]
                != self.entries@[j] by {
                if i < j {
                    assert(listed_before(self.entries@[i], self.entries@[j]));
                } else {
                    assert(listed_before(self.entries@[j], self.entries@[i]));
                }
            }
            self.entries@.unique_seq_to_set();
        }
        self.entries.len()
    }

    /// Adds `result` to the set, and says whether it was new to it.
    pub fn insert(&mut self, result: PrimeResult) -> (added: bool)
        requires
            old(self).wf(),
        ensures
            final(self).wf(),
            final(self)@ == old(self)@.insert(result),
            added == !old(self)@.contains(result),
    {
        let mut low: usize = 0;
        let mut high: usize = self.entries.len();
        while low < high
            invariant
                low <= high <= self.entries.len(),
                strictly_listed(self.entries@),
                forall|i: int| 0 <= i < low ==> listed_before(self.entries[i], result),
                forall|i: int| high <= i < self.entries.len() ==> !listed_before(self.entries[i], result),
            decreases high - low,
        {
            let middle: usize = low + (high - low) / 2;
            if precedes(&self.entries[middle], &result) {
                assert forall|i: int| 0 <= i < middle + 1 implies listed_before(
                    self.entries[i],
                    result,
                ) by {
                    if i < middle {
                        assert(listed_before(self.entries[i], self.entries[middle as int]));
                    }
                }
                low = middle + 1;
            } else {
                assert forall|i: int| middle <= i < self.entries.len() implies !listed_before(
                    self.entries[i],
                    result,
                ) by {
                    if middle < i {
                        assert(listed_before(self.entries[middle as int], self.entries[i]));
                    }
                }
                high = middle;
            }
        }
        if low < self.entries.len() && self.entries[low] == result {
            assert(self.entries@.contains(result));
            assert(self@ =~= self@.insert(result));
            return false;
        }
        let ghost before = self.entries@;
        assert(!before.contains(result)) by {
            if before.contains(result) {
                let i = choose|i: int| 0 <= i < before.len() && before[i] == result;
                assert(i >= low);
                assert(i > low);
                assert(listed_before(before[low as int], before[i]));
            }
        }
        self.entries.insert(low, result);
        proof {
            let after = self.entries@;
            assert forall|i: int, j: int| 0 <= i < j < after.len() implies listed_before(
                after[i],
                after[j],
            ) by {
                if j < low {
                } else if j == low {
                } else if i < low {
                    assert(after[j] == before[j - 1]);
                } else if i == low {
                    assert(after[j] == before[j - 1]);
                    assert(!listed_before(before[j - 1], result));
                } else {
                    assert(after[i] == before[i - 1]);
                    assert(after[j] == before[j - 1]);
                }
            }
            assert forall|r: PrimeResult| after.to_set().contains(r) <==> before.to_set().insert(
                result,
            ).contains(r) by {
                if after.contains(r) {
                    let i = choose|i: int| 0 <= i < after.len() && after[i] == r;
                    if i < low {
                        assert(before[i] == r);
                    } else if i > low {
                        assert(before[i - 1] == r);
                    }
                }
                if before.contains(r) {
                    let i = choose|i: int| 0 <= i < before.len() && before[i] == r;
                    if i < low {
                        assert(after[i] == r);
                    } else {
                        assert(after[i + 1] == r);
                    }
                }
                assert(after[low as int] == result);
            }
            assert(after.to_set() =~= before.to_set().insert(result));
        }
        true
    }

    /// The results of the set, in the order of `listed_before`.
    pub fn to_vec(&self) -> (list: Vec<PrimeResult>)
        requires
            self.wf(),
        ensures
            list@.to_set() == self@,
            strictly_listed(list@),
    {
        let mut list: Vec<PrimeResult> = Vec::new();
        let mut i: usize = 0;
        while i < self.entries.len()
            invariant
                i <= self.entries.len(),
                list@ == self.entries@.take(i as int),
            decreases self.entries.len() - i,
        {
            list.push(self.entries[i]);
            assert(list@ =~= self.entries@.take(i + 1));
            i += 1;
        }
        assert(list@ =~= self.entries@);
        list
    }
}

/// Whether `a` is listed before `b`.
fn precedes(a: &PrimeResult, b: &PrimeResult) -> (before: bool)
    ensures
        before == listed_before(*a, *b),
{
    if a.number != b.number {
        a.number < b.number
    } else if a.calculation_time_micros != b.calculation_time_micros {
        a.calculation_time_micros < b.calculation_time_micros
    } else {
        !a.is_prime && b.is_prime
    }
}

} // verus!
