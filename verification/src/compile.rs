//! One run of the compiler over the records of a database.
//!
//! Records are resolved strictly one after the other. The cache holds the
//! results of the records that an earlier, interrupted run completed, in
//! processing order: a record that has a cache entry takes it as its result
//! without any search, and every other record is computed and its result is
//! appended to the cache. The length of the cache alone tells where a run
//! resumes.

use vstd::prelude::*;
use crate::encoder::{
    bounds_of,
    encode_tracked,
    in_band,
    is_encoding_of,
    rebased_table,
    EncodeError,
    MinMax,
};
use crate::codec::Endian;
use crate::matrix::{column_of, read_window, window_of, RECORD_COUNT, WINDOW_COUNT, WINDOW_SIZE};
use crate::search::{
    contains_zero,
    find_divisor,
    has_zero,
    lemma_least_divisor_is,
    record_result,
    SearchError,
    SENTINEL,
};

verus! {

/// What is to be done for one record.
#[derive(Debug, Clone, Copy, PartialEq, Eq, Structural)]
pub enum Plan {
    /// The cache holds a result for the record: it is taken as it stands.
    Cached(i32),
    /// The record holds a zero hash value: its result is the sentinel.
    Sentinel,
    /// The record needs a divisor search.
    Search,
}

/// The result of one record, and whether it still has to be appended to the
/// cache.
#[derive(Debug, Clone, Copy, PartialEq, Eq, Structural)]
pub struct Resolution {
    /// The raw result of the record.
    pub value: i32,
    /// Whether the result was computed in this run. A computed result is
    /// appended to the cache before the next record begins.
    pub computed: bool,
}

/// Why a run ended early.
#[derive(Debug, Clone, Copy, PartialEq, Eq, Structural)]
pub enum CompileError {
    /// The search for the record at this position found no divisor.
    Search { record: usize },
    /// The results of the run do not fit in the output table.
    Encode(EncodeError),
}

/// The cache entry that is pending for the record at `index`, if the cache
/// reaches that far.
pub open spec fn spec_pending_entry(cache: Seq<i32>, index: int) -> Option<i32> {
    if 0 <= index < cache.len() {
        Some(cache[index])
    } else {
        None
    }
}

/// The plan for a record: a pending cache entry is taken without a look at
/// the record; otherwise a zero hash value decides between sentinel and
/// search.
pub open spec fn spec_plan(pending: Option<i32>, hashes: Seq<i32>) -> Plan {
    match pending {
        Some(v) => Plan::Cached(v),
        None => if has_zero(hashes) {
            Plan::Sentinel
        } else {
            Plan::Search
        },
    }
}

/// The result of the record at `index` of a run that started with `cache`:
/// its cache entry where there is one, else what the search computes.
pub open spec fn outcome_at(
    records: Seq<Seq<i32>>,
    cache: Seq<i32>,
    div_start: int,
    index: int,
) -> Option<i32> {
    match spec_pending_entry(cache, index) {
        Some(v) => Some(v),
        None => record_result(records[index], div_start),
    }
}

/// Whether every record of the run gets a result.
pub open spec fn run_completes(records: Seq<Seq<i32>>, cache: Seq<i32>, div_start: int) -> bool {
    forall|i: int| 0 <= i < records.len() ==> (#[trigger] outcome_at(records, cache, div_start, i))
        is Some
}

/// The raw results of a complete run, in processing order.
pub open spec fn run_results(records: Seq<Seq<i32>>, cache: Seq<i32>, div_start: int) -> Seq<i32> {
    Seq::new(records.len(), |i: int| outcome_at(records, cache, div_start, i).unwrap())
}

/// The results that a complete run appends to the cache: those of the
/// records beyond the cache it started with.
pub open spec fn run_appended(records: Seq<Seq<i32>>, cache: Seq<i32>, div_start: int) -> Seq<i32> {
    if cache.len() >= records.len() {
        Seq::empty()
    } else {
        run_results(records, cache, div_start).subrange(cache.len() as int, records.len() as int)
    }
}

/// The first `count` results of a run, whether or not it completes.
pub open spec fn results_before(
    records: Seq<Seq<i32>>,
    cache: Seq<i32>,
    div_start: int,
    count: int,
) -> Seq<i32> {
    Seq::new(count as nat, |i: int| outcome_at(records, cache, div_start, i).unwrap())
}

/// Resumption: let a run that started without a cache be interrupted after
/// it resolved `done` records, and let a second run start with the cache
/// that the first left behind. Then every record has in the second run the
/// result that it has in a run that is never interrupted. So the second run
/// completes exactly where that run does, and then gives the same results,
/// leaves the same cache behind and writes the same output table.
pub proof fn lemma_resumption(records: Seq<Seq<i32>>, div_start: int, done: int)
    requires
        0 <= done <= records.len(),
        forall|i: int|
            0 <= i < done ==> (#[trigger] outcome_at(records, Seq::empty(), div_start, i)) is Some,
    ensures
        ({
            let left_behind = results_before(records, Seq::empty(), div_start, done);
            let whole = run_results(records, Seq::empty(), div_start);
            &&& forall|i: int|
                0 <= i < records.len() ==> #[trigger] outcome_at(
                    records,
                    left_behind,
                    div_start,
                    i,
                ) == outcome_at(records, Seq::empty(), div_start, i)
            &&& run_completes(records, left_behind, div_start) == run_completes(
                records,
                Seq::empty(),
                div_start,
            )
            &&& run_results(records, left_behind, div_start) == whole
            &&& left_behind + run_appended(records, left_behind, div_start) == whole
            &&& run_appended(records, Seq::empty(), div_start) == whole
            &&& rebased_table(run_results(records, left_behind, div_start)) == rebased_table(whole)
        }),
{
    let empty = Seq::<i32>::empty();
    let whole = run_results(records, empty, div_start);
    let left_behind = results_before(records, empty, div_start, done);
    assert forall|i: int| 0 <= i < records.len() implies #[trigger] outcome_at(
        records,
        left_behind,
        div_start,
        i,
    ) == outcome_at(records, empty, div_start, i) by {
        if i < done {
            assert(outcome_at(records, empty, div_start, i) is Some);
        }
    }
    assert(run_appended(records, empty, div_start) =~= whole);
    assert(run_results(records, left_behind, div_start) =~= whole);
    assert(left_behind + run_appended(records, left_behind, div_start) =~= whole);
    if run_completes(records, empty, div_start) {
        assert forall|i: int| 0 <= i < records.len() implies (#[trigger] outcome_at(
            records,
            left_behind,
            div_start,
            i,
        )) is Some by {
            assert(outcome_at(records, empty, div_start, i) is Some);
        }
    }
    if run_completes(records, left_behind, div_start) {
        assert forall|i: int| 0 <= i < records.len() implies (#[trigger] outcome_at(
            records,
            empty,
            div_start,
            i,
        )) is Some by {
            assert(outcome_at(records, left_behind, div_start, i) is Some);
        }
    }
}

/// The cache entry that is pending for the record at `index`.
pub fn pending_entry(cache: &[i32], index: usize) -> (pending: Option<i32>)
    ensures
        pending == spec_pending_entry(cache@, index as int),
{
    if index < cache.len() {
        Some(cache[index])
    } else {
        None
    }
}

/// Decides what is to be done for one record.
pub fn plan_record(pending: Option<i32>, hashes: &[i32]) -> (plan: Plan)
    ensures
        plan == spec_plan(pending, hashes@),
{
    match pending {
        Some(v) => Plan::Cached(v),
        None => {
            if contains_zero(hashes) {
                Plan::Sentinel
            } else {
                Plan::Search
            }
        },
    }
}

/// Resolves one record as a single worker does. A pending cache entry is the
/// result, unchecked; otherwise the result is computed and marked for the
/// cache.
pub fn resolve_with_cache(pending: Option<i32>, hashes: &[i32], div_start: i32) -> (result: Result<
    Resolution,
    SearchError,
>)
    ensures
        match pending {
            Some(v) => result == Ok::<Resolution, SearchError>(
                Resolution { value: v, computed: false },
            ),
            None => match record_result(hashes@, div_start as int) {
                Some(v) => result == Ok::<Resolution, SearchError>(
                    Resolution { value: v, computed: true },
                ),
                None => result == Err::<Resolution, SearchError>(SearchError::Exhausted),
            },
        },
{
    match plan_record(pending, hashes) {
        Plan::Cached(v) => Ok(Resolution { value: v, computed: false }),
        Plan::Sentinel => Ok(Resolution { value: SENTINEL, computed: true }),
        Plan::Search => match find_divisor(hashes, div_start) {
            Some(c) => {
                proof {
                    lemma_least_divisor_is(hashes@, div_start as int, c as int);
                }
                Ok(Resolution { value: c, computed: true })
            },
            None => Err(SearchError::Exhausted),
        },
    }
}

/// The results of the records resolved so far, with the running bounds of
/// their divisors. A run is made for a known number of records, and its
/// output table can be written once every one of them is resolved.
#[derive(Debug)]
pub struct Compilation {
    record_count: usize,
    results: Vec<i32>,
    tracker: MinMax,
}

impl View for Compilation {
    type V = Seq<i32>;

    /// The raw results accepted so far, in processing order.
    closed spec fn view(&self) -> Seq<i32> {
        self.results@
    }
}

impl Compilation {
    /// The number of records that the run was made for.
    pub closed spec fn record_count(&self) -> nat {
        self.record_count as nat
    }

    /// The bounds that the run tracks are those of its results.
    pub closed spec fn wf(&self) -> bool {
        self.tracker@ == bounds_of(self.results@)
    }

    /// A run over `record_count` records that has resolved none of them yet.
    /// Its results buffer is sized for exactly that many records.
    pub fn new(record_count: usize) -> (run: Compilation)
        ensures
            run.wf(),
            run@ == Seq::<i32>::empty(),
            run.record_count() == record_count,
    {
        Compilation {
            record_count,
            results: Vec::with_capacity(record_count),
            tracker: MinMax::new(),
        }
    }

    /// Takes the result of the next record into the run.
    pub fn accept(&mut self, value: i32)
        requires
            old(self).wf(),
        ensures
            final(self).wf(),
            final(self)@ == old(self)@.push(value),
            final(self).record_count() == old(self).record_count(),
    {
        self.results.push(value);
        self.tracker.observe(value);
        proof {
            assert(self.results@.drop_last() =~= old(self).results@);
        }
    }

    /// The number of records resolved so far.
    pub fn resolved(&self) -> (count: usize)
        ensures
            count == self@.len(),
    {
        self.results.len()
    }

    /// Tells whether every record that the run was made for is resolved.
    pub fn is_complete(&self) -> (complete: bool)
        ensures
            complete == (self@.len() >= self.record_count()),
    {
        self.results.len() >= self.record_count
    }

    /// The least and the greatest divisor among the results so far.
    pub fn bounds(&self) -> (tracker: MinMax)
        requires
            self.wf(),
        ensures
            tracker@ == bounds_of(self@),
    {
        self.tracker
    }

    /// Rebases the results of the run into the output table. Fails exactly
    /// where some rebased value exceeds 65535.
    pub fn finish(&self) -> (table: Result<Vec<u16>, EncodeError>)
        requires
            self.wf(),
        ensures
            is_encoding_of(self@, table),
            table is Ok <==> in_band(self@),
    {
        encode_tracked(self.results.as_slice(), &self.tracker)
    }

    /// Gives up the run for its raw results.
    pub fn into_results(self) -> (results: Vec<i32>)
        ensures
            results@ == self@,
    {
        self.results
    }
}

/// What a complete run leaves behind.
#[derive(Debug)]
pub struct RunOutput {
    /// The raw result of every record, in processing order.
    pub results: Vec<i32>,
    /// The results that the run computed, to be appended to the cache.
    pub appended: Vec<i32>,
    /// The output table: every raw result rebased into 16 bits.
    pub table: Vec<u16>,
}

/// The hash values of each record, as sequences.
pub open spec fn records_view(records: Seq<Vec<i32>>) -> Seq<Seq<i32>> {
    Seq::new(records.len(), |i: int| records[i]@)
}

/// Whether `output` is what a single worker's run over `records` gives when
/// it starts with `cache`: the results, the cache entries to append and the
/// output table of a complete run; else the first record whose search fails;
/// else the first result that does not fit in the table.
pub open spec fn is_run_output(
    records: Seq<Seq<i32>>,
    cache: Seq<i32>,
    div_start: int,
    output: Result<RunOutput, CompileError>,
) -> bool {
    match output {
        Ok(out) => {
            &&& run_completes(records, cache, div_start)
            &&& out.results@ == run_results(records, cache, div_start)
            &&& out.appended@ == run_appended(records, cache, div_start)
            &&& is_encoding_of(out.results@, Ok::<Vec<u16>, EncodeError>(out.table))
        },
        Err(CompileError::Search { record }) => {
            &&& record < records.len()
            &&& outcome_at(records, cache, div_start, record as int) is None
            &&& forall|j: int|
                0 <= j < record ==> (#[trigger] outcome_at(records, cache, div_start, j)) is Some
        },
        Err(CompileError::Encode(e)) => {
            &&& run_completes(records, cache, div_start)
            &&& is_encoding_of(
                run_results(records, cache, div_start),
                Err::<Vec<u16>, EncodeError>(e),
            )
        },
    }
}

/// The records of a database in processing order: the columns of the first
/// window, then those of the second, and so on through the last window.
pub open spec fn database_records(db: Seq<u8>, endian: Endian) -> Seq<Seq<i32>> {
    Seq::new(
        RECORD_COUNT as nat,
        |i: int|
            column_of(
                window_of(db, (i / WINDOW_SIZE as int) * WINDOW_SIZE, WINDOW_SIZE as int, endian),
                i % WINDOW_SIZE as int,
            ),
    )
}

/// Runs the compiler over the given records, as a single worker does. The
/// cache holds the results that an earlier run left behind; records beyond
/// it are computed. The run stops at the first record whose search finds no
/// divisor, and fails at the end where the results do not fit in the table.
pub fn compile_records(records: &Vec<Vec<i32>>, cache: &[i32], div_start: i32) -> (output: Result<
    RunOutput,
    CompileError,
>)
    ensures
        is_run_output(records_view(records@), cache@, div_start as int, output),
{
    let ghost all = records_view(records@);
    let mut run = Compilation::new(records.len());
    let mut appended: Vec<i32> = Vec::new();
    let mut i: usize = 0;
    while i < records.len()
        invariant
            i <= records.len(),
            all == records_view(records@),
            run.wf(),
            run@ == results_before(all, cache@, div_start as int, i as int),
            forall|j: int|
                0 <= j < i ==> (#[trigger] outcome_at(all, cache@, div_start as int, j)) is Some,
            appended@ == if i <= cache@.len() {
                Seq::<i32>::empty()
            } else {
                run@.subrange(cache@.len() as int, i as int)
            },
        decreases records.len() - i,
    {
        let pending = pending_entry(cache, i);
        assert(all[i as int] == records@[i as int]@);
        match resolve_with_cache(pending, records[i].as_slice(), div_start) {
            Ok(resolution) => {
                let ghost before = run@;
                run.accept(resolution.value);
                if resolution.computed {
                    appended.push(resolution.value);
                }
                proof {
                    assert(outcome_at(all, cache@, div_start as int, i as int) == Some(
                        resolution.value,
                    ));
                    assert(run@ =~= results_before(all, cache@, div_start as int, i + 1));
                    if i + 1 > cache@.len() {
                        assert(appended@ =~= run@.subrange(cache@.len() as int, i + 1));
                    }
                }
            },
            Err(_) => {
                return Err(CompileError::Search { record: i });
            },
        }
        i = i + 1;
    }
    proof {
        assert(run@ =~= run_results(all, cache@, div_start as int));
        assert(appended@ =~= run_appended(all, cache@, div_start as int));
    }
    match run.finish() {
        Ok(table) => Ok(RunOutput { results: run.into_results(), appended, table }),
        Err(e) => Err(CompileError::Encode(e)),
    }
}

/// Collects the records of a database that is held in memory, window by
/// window.
pub fn collect_records(db: &[u8], endian: Endian) -> (records: Vec<Vec<i32>>)
    ensures
        records_view(records@) == database_records(db@, endian),
{
    let mut records: Vec<Vec<i32>> = Vec::with_capacity(RECORD_COUNT);
    let mut w: usize = 0;
    while w < WINDOW_COUNT
        invariant
            w <= WINDOW_COUNT,
            records@.len() == w * WINDOW_SIZE,
            forall|i: int|
                0 <= i < records@.len() ==> (#[trigger] records@[i])@ == database_records(
                    db@,
                    endian,
                )[i],
        decreases WINDOW_COUNT - w,
    {
        let start: usize = w * WINDOW_SIZE;
        if let Some(window) = read_window(db, start, WINDOW_SIZE, endian) {
            let mut offset: usize = 0;
            while offset < WINDOW_SIZE
                invariant
                    w < WINDOW_COUNT,
                    start == w * WINDOW_SIZE,
                    offset <= WINDOW_SIZE,
                    window.wf(),
                    window.width() == WINDOW_SIZE,
                    window@ == window_of(db@, start as int, WINDOW_SIZE as int, endian),
                    records@.len() == start + offset,
                    forall|i: int|
                        0 <= i < records@.len() ==> (#[trigger] records@[i])@ == database_records(
                            db@,
                            endian,
                        )[i],
                decreases WINDOW_SIZE - offset,
            {
                let hashes = window.record(offset);
                proof {
                    let i = start + offset;
                    assert(i / WINDOW_SIZE as int == w && i % WINDOW_SIZE as int == offset) by {
                        vstd::arithmetic::div_mod::lemma_fundamental_div_mod_converse(
                            i as int,
                            WINDOW_SIZE as int,
                            w as int,
                            offset as int,
                        );
                    }
                }
                records.push(hashes);
                offset = offset + 1;
            }
        }
        w = w + 1;
    }
    assert(records_view(records@) =~= database_records(db@, endian));
    records
}

/// Runs the compiler over a database that is held in memory, as a single
/// worker does: every complete row takes part, and the records are taken
/// window by window.
pub fn compile_database(db: &[u8], cache: &[i32], div_start: i32, endian: Endian) -> (output:
    Result<RunOutput, CompileError>)
    ensures
        is_run_output(database_records(db@, endian), cache@, div_start as int, output),
{
    let records = collect_records(db, endian);
    compile_records(&records, cache, div_start)
}

} // verus!
