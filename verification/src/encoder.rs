//! The second phase of a run: the raw results are rebased against the least
//! divisor found anywhere in the run and stored as 16-bit values.
//!
//! The least divisor is known only when the last record is resolved, so the
//! run first collects every raw result, tracking the least and the greatest
//! divisor as it goes, and rebases afterwards.

use vstd::prelude::*;
use crate::search::SENTINEL;

verus! {

/// The greatest value that an entry of the output table can hold.
pub const OUTPUT_MAX: u16 = 0xFFFF;

/// Why a table could not be encoded.
#[derive(Debug, Clone, Copy, PartialEq, Eq, Structural)]
pub enum EncodeError {
    /// The rebased result at `index` does not fit in 16 bits: the divisors of
    /// the run do not lie within one band of 65535 values. This is a breach
    /// of an invariant of the run, which a caller treats as fatal.
    OutOfBand { index: usize },
}

/// The bounds after one more raw result: a sentinel leaves them as they are,
/// any other value widens them.
pub open spec fn widened(bounds: Option<(int, int)>, value: int) -> Option<(int, int)> {
    if value == SENTINEL {
        bounds
    } else {
        match bounds {
            None => Some((value, value)),
            Some((low, high)) => Some(
                (
                    if value < low {
                        value
                    } else {
                        low
                    },
                    if value > high {
                        value
                    } else {
                        high
                    },
                ),
            ),
        }
    }
}

/// The least and the greatest result among those that are no sentinel, as a
/// pass over the results in order finds them; nothing where all are
/// sentinels.
pub open spec fn bounds_of(results: Seq<i32>) -> Option<(int, int)>
    decreases results.len(),
{
    if results.len() == 0 {
        None
    } else {
        widened(bounds_of(results.drop_last()), results.last() as int)
    }
}

/// Whether `low` is the least result that is no sentinel.
pub open spec fn is_least_result(results: Seq<i32>, low: int) -> bool {
    &&& low != SENTINEL
    &&& exists|i: int| 0 <= i < results.len() && results[i] == low
    &&& forall|i: int| 0 <= i < results.len() && results[i] != SENTINEL ==> low <= results[i]
}

/// Whether `high` is the greatest result that is no sentinel.
pub open spec fn is_greatest_result(results: Seq<i32>, high: int) -> bool {
    &&& high != SENTINEL
    &&& exists|i: int| 0 <= i < results.len() && results[i] == high
    &&& forall|i: int| 0 <= i < results.len() && results[i] != SENTINEL ==> results[i] <= high
}

/// The value against which the results of a run are rebased: the least
/// result that is no sentinel. Where every result is a sentinel nothing is
/// rebased, and the base is `0`.
pub open spec fn base_of(results: Seq<i32>) -> int {
    match bounds_of(results) {
        Some((low, _)) => low,
        None => 0,
    }
}

/// The encoding of one raw result against a base: `0` for the sentinel, else
/// the distance from the base plus one.
pub open spec fn rebased(value: int, base: int) -> int {
    if value == SENTINEL {
        0
    } else {
        value - base + 1
    }
}

/// The output table of a run, before it is narrowed to 16 bits.
pub open spec fn rebased_table(results: Seq<i32>) -> Seq<int> {
    Seq::new(results.len(), |i: int| rebased(results[i] as int, base_of(results)))
}

/// Whether one raw result fits in an entry of the output table: a sentinel
/// always does, and another value where it is not below the base and its
/// encoding does not exceed 65535.
pub open spec fn fits(value: int, base: int) -> bool {
    value == SENTINEL || 1 <= rebased(value, base) <= OUTPUT_MAX
}

/// Whether every rebased result of a run fits in 16 bits.
pub open spec fn in_band(results: Seq<i32>) -> bool {
    forall|i: int| 0 <= i < results.len() ==> #[trigger] rebased_table(results)[i] <= OUTPUT_MAX
}

/// The bounds that a pass finds are the least and the greatest result that
/// is no sentinel; it finds none exactly where every result is a sentinel.
pub proof fn lemma_bounds_of(results: Seq<i32>)
    ensures
        match bounds_of(results) {
            Some((low, high)) => is_least_result(results, low) && is_greatest_result(
                results,
                high,
            ),
            None => forall|i: int| 0 <= i < results.len() ==> results[i] == SENTINEL,
        },
    decreases results.len(),
{
    if results.len() > 0 {
        let front = results.drop_last();
        lemma_bounds_of(front);
        assert forall|i: int| 0 <= i < front.len() implies front[i] == results[i] by {}
        match bounds_of(front) {
            Some((low, high)) => {
                let i_low = choose|i: int| 0 <= i < front.len() && front[i] == low;
                let i_high = choose|i: int| 0 <= i < front.len() && front[i] == high;
                assert(results[i_low] == low);
                assert(results[i_high] == high);
                assert(results[results.len() - 1] == results.last());
            },
            None => {
                assert(results[results.len() - 1] == results.last());
            },
        }
    }
}

/// The rebasing law: the least result that is no sentinel is stored as `1`,
/// every other result `r` that is no sentinel as `r - least + 1`, and the
/// sentinel as `0`.
pub proof fn lemma_rebasing_law(results: Seq<i32>, i: int)
    requires
        0 <= i < results.len(),
    ensures
        results[i] == SENTINEL ==> rebased_table(results)[i] == 0,
        results[i] != SENTINEL ==> {
            &&& is_least_result(results, base_of(results))
            &&& rebased_table(results)[i] == results[i] - base_of(results) + 1
            &&& rebased_table(results)[i] >= 1
            &&& results[i] == base_of(results) ==> rebased_table(results)[i] == 1
        },
{
    lemma_bounds_of(results);
}

/// The results of a run lie within one band exactly when the greatest
/// divisor is less than 65535 above the least.
pub proof fn lemma_band_by_bounds(results: Seq<i32>)
    ensures
        match bounds_of(results) {
            Some((low, high)) => in_band(results) <==> high - low + 1 <= OUTPUT_MAX,
            None => in_band(results),
        },
{
    lemma_bounds_of(results);
    match bounds_of(results) {
        Some((low, high)) => {
            if in_band(results) {
                let i_high = choose|i: int| 0 <= i < results.len() && results[i] == high;
                assert(rebased_table(results)[i_high] <= OUTPUT_MAX);
            }
        },
        None => {},
    }
}

/// The running least and greatest divisor of a run. Sentinels are not
/// divisors and leave it unchanged.
#[derive(Debug, Clone, Copy)]
pub struct MinMax {
    bounds: Option<(i32, i32)>,
}

impl View for MinMax {
    type V = Option<(int, int)>;

    closed spec fn view(&self) -> Option<(int, int)> {
        match self.bounds {
            Some((low, high)) => Some((low as int, high as int)),
            None => None,
        }
    }
}

impl MinMax {
    /// A tracker that has seen no result.
    pub fn new() -> (tracker: MinMax)
        ensures
            tracker@ == bounds_of(Seq::<i32>::empty()),
            tracker@ is None,
    {
        MinMax { bounds: None }
    }

    /// Takes note of one more raw result.
    pub fn observe(&mut self, value: i32)
        ensures
            final(self)@ == widened(old(self)@, value as int),
    {
        if value != SENTINEL {
            match self.bounds {
                None => {
                    self.bounds = Some((value, value));
                },
                Some((low, high)) => {
                    let new_low: i32 = if value < low {
                        value
                    } else {
                        low
                    };
                    let new_high: i32 = if value > high {
                        value
                    } else {
                        high
                    };
                    self.bounds = Some((new_low, new_high));
                },
            }
        }
    }

    /// The least divisor seen so far.
    pub fn min(&self) -> (min: Option<i32>)
        ensures
            match self@ {
                Some((low, _)) => min == Some(low as i32) && min.unwrap() == low,
                None => min is None,
            },
    {
        match self.bounds {
            Some((low, _)) => Some(low),
            None => None,
        }
    }

    /// The greatest divisor seen so far.
    pub fn max(&self) -> (max: Option<i32>)
        ensures
            match self@ {
                Some((_, high)) => max == Some(high as i32) && max.unwrap() == high,
                None => max is None,
            },
    {
        match self.bounds {
            Some((_, high)) => Some(high),
            None => None,
        }
    }
}

/// Tracks the bounds of a whole sequence of raw results.
pub fn track_results(results: &[i32]) -> (tracker: MinMax)
    ensures
        tracker@ == bounds_of(results@),
{
    let mut tracker = MinMax::new();
    let mut i: usize = 0;
    while i < results.len()
        invariant
            i <= results.len(),
            tracker@ == bounds_of(results@.take(i as int)),
        decreases results.len() - i,
    {
        tracker.observe(results[i]);
        proof {
            assert(results@.take(i + 1).drop_last() =~= results@.take(i as int));
        }
        i = i + 1;
    }
    proof {
        assert(results@.take(results.len() as int) =~= results@);
    }
    tracker
}

/// Encodes one raw result against a base, where the encoding fits in 16
/// bits.
pub fn rebase(value: i32, base: i32) -> (encoded: Option<u16>)
    ensures
        match encoded {
            Some(e) => fits(value as int, base as int) && e == rebased(value as int, base as int),
            None => !fits(value as int, base as int),
        },
{
    if value == SENTINEL {
        return Some(0);
    }
    let distance: i64 = value as i64 - base as i64 + 1;
    if 1 <= distance && distance <= OUTPUT_MAX as i64 {
        Some(distance as u16)
    } else {
        None
    }
}

/// Whether `table` holds, at `index`, the encoding of the raw result there.
pub open spec fn encodes_at(results: Seq<i32>, base: int, table: Seq<u16>, index: int) -> bool {
    fits(results[index] as int, base) && table[index] == rebased(results[index] as int, base)
}

/// Whether the raw result at `index` fits in an entry of the output table.
pub open spec fn fits_at(results: Seq<i32>, base: int, index: int) -> bool {
    fits(results[index] as int, base)
}

/// Encodes every raw result against one base. Fails at the first result
/// whose encoding does not fit in 16 bits.
pub fn rebase_results(results: &[i32], base: i32) -> (table: Result<Vec<u16>, EncodeError>)
    ensures
        match table {
            Ok(t) => {
                &&& t@.len() == results@.len()
                &&& forall|i: int|
                    0 <= i < results@.len() ==> #[trigger] encodes_at(results@, base as int, t@, i)
            },
            Err(EncodeError::OutOfBand { index }) => {
                &&& index < results@.len()
                &&& !fits_at(results@, base as int, index as int)
                &&& forall|j: int| 0 <= j < index ==> #[trigger] fits_at(results@, base as int, j)
            },
        },
{
    let mut table: Vec<u16> = Vec::with_capacity(results.len());
    let mut i: usize = 0;
    while i < results.len()
        invariant
            i <= results.len(),
            table@.len() == i,
            forall|j: int| 0 <= j < i ==> #[trigger] encodes_at(results@, base as int, table@, j),
        decreases results.len() - i,
    {
        match rebase(results[i], base) {
            Some(e) => {
                let ghost before = table@;
                table.push(e);
                proof {
                    assert forall|j: int| 0 <= j < i + 1 implies #[trigger] encodes_at(
                        results@,
                        base as int,
                        table@,
                        j,
                    ) by {
                        if j < i {
                            assert(encodes_at(results@, base as int, before, j));
                        }
                    }
                }
            },
            None => {
                proof {
                    assert forall|j: int| 0 <= j < i implies #[trigger] fits_at(
                        results@,
                        base as int,
                        j,
                    ) by {
                        assert(encodes_at(results@, base as int, table@, j));
                    }
                }
                return Err(EncodeError::OutOfBand { index: i });
            },
        }
        i = i + 1;
    }
    Ok(table)
}

/// Whether `table` is what encoding the raw results of a run gives: the
/// rebased table where every entry fits in 16 bits, else the position of the
/// first entry that does not.
pub open spec fn is_encoding_of(results: Seq<i32>, table: Result<Vec<u16>, EncodeError>) -> bool {
    match table {
        Ok(t) => {
            &&& in_band(results)
            &&& t@.len() == results.len()
            &&& forall|i: int| 0 <= i < results.len() ==> (#[trigger] t@[i]) == rebased_table(results)[i]
        },
        Err(EncodeError::OutOfBand { index }) => {
            &&& !in_band(results)
            &&& index < results.len()
            &&& rebased_table(results)[index as int] > OUTPUT_MAX
            &&& forall|j: int| 0 <= j < index ==> #[trigger] rebased_table(results)[j] <= OUTPUT_MAX
        },
    }
}

/// Rebases the raw results of a complete run against the least divisor that
/// the tracker saw during the run.
pub fn encode_tracked(results: &[i32], tracker: &MinMax) -> (table: Result<Vec<u16>, EncodeError>)
    requires
        tracker@ == bounds_of(results@),
    ensures
        is_encoding_of(results@, table),
        table is Ok <==> in_band(results@),
{
    let base: i32 = match tracker.min() {
        Some(low) => low,
        None => 0,
    };
    proof {
        assert forall|i: int| 0 <= i < results@.len() implies fits_at(results@, base as int, i)
            || rebased_table(results@)[i] > OUTPUT_MAX by {
            lemma_rebasing_law(results@, i);
        }
    }
    let table = rebase_results(results, base);
    proof {
        if table is Ok {
            let t = table->Ok_0;
            assert forall|i: int| 0 <= i < results@.len() implies #[trigger] rebased_table(
                results@,
            )[i] <= OUTPUT_MAX by {
                assert(encodes_at(results@, base as int, t@, i));
            }
            assert forall|i: int| 0 <= i < results@.len() implies (#[trigger] t@[i])
                == rebased_table(results@)[i] by {
                assert(encodes_at(results@, base as int, t@, i));
            }
        } else {
            let index = table->Err_0->index;
            assert(!fits_at(results@, base as int, index as int));
            assert forall|j: int| 0 <= j < index implies #[trigger] rebased_table(
                results@,
            )[j] <= OUTPUT_MAX by {
                assert(fits_at(results@, base as int, j));
            }
        }
    }
    table
}

/// Encodes the raw results of a complete run: finds the least divisor, then
/// rebases every result against it. Fails exactly where some rebased value
/// exceeds 65535.
pub fn encode_results(results: &[i32]) -> (table: Result<Vec<u16>, EncodeError>)
    ensures
        is_encoding_of(results@, table),
        table is Ok <==> in_band(results@),
{
    let tracker = track_results(results);
    encode_tracked(results, &tracker)
}

} // verus!
