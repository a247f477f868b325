//! The divisor search for one record.
//!
//! A record is the column of hash values taken across all rows. Its result is
//! the sentinel `0` when some hash value is zero, and otherwise a positive
//! divisor, not below the configured start, that divides none of the hash
//! values evenly.
//!
//! Candidates are claimed one at a time from a [`SearchEpisode`], which is the
//! state that racing workers share. A single worker that claims, tests and
//! reports in turn finds the least qualifying divisor; several workers find
//! one that qualifies, though not always the least.

use vstd::prelude::*;

verus! {

/// The result that marks a record with a zero hash value.
pub const SENTINEL: i32 = 0;

/// Why a search ended without a divisor.
#[derive(Debug, Clone, Copy, PartialEq, Eq, Structural)]
pub enum SearchError {
    /// No candidate from the start up to the largest 32-bit value qualifies.
    Exhausted,
}

/// Whether some hash value of the record is exactly zero.
pub open spec fn has_zero(hashes: Seq<i32>) -> bool {
    exists|i: int| 0 <= i < hashes.len() && hashes[i] == 0
}

/// Whether `candidate` divides no hash value of the record evenly.
pub open spec fn divides_none(candidate: int, hashes: Seq<i32>) -> bool {
    forall|i: int| 0 <= i < hashes.len() ==> (#[trigger] hashes[i]) as int % candidate != 0
}

/// The first candidate of a search: the start, or `1` where the start is not
/// positive, since only positive integers are divisors.
pub open spec fn first_candidate(div_start: int) -> int {
    if div_start < 1 {
        1
    } else {
        div_start
    }
}

/// Whether `candidate` is an admissible result for a record without a zero:
/// a positive 32-bit value, not below the start, that divides no hash value.
pub open spec fn qualifies(hashes: Seq<i32>, div_start: int, candidate: int) -> bool {
    &&& first_candidate(div_start) <= candidate <= i32::MAX
    &&& divides_none(candidate, hashes)
}

/// Whether `candidate` qualifies and no smaller candidate does.
pub open spec fn is_least_divisor(hashes: Seq<i32>, div_start: int, candidate: int) -> bool {
    &&& qualifies(hashes, div_start, candidate)
    &&& forall|d: int| d < candidate ==> !#[trigger] qualifies(hashes, div_start, d)
}

/// Whether any candidate qualifies for the record.
pub open spec fn search_succeeds(hashes: Seq<i32>, div_start: int) -> bool {
    exists|c: int| qualifies(hashes, div_start, c)
}

/// The least qualifying divisor of a record, where one exists.
pub open spec fn least_divisor(hashes: Seq<i32>, div_start: int) -> int {
    choose|c: int| is_least_divisor(hashes, div_start, c)
}

/// The result of a record as a single worker computes it: the sentinel for a
/// record with a zero, else the least qualifying divisor, else nothing.
pub open spec fn record_result(hashes: Seq<i32>, div_start: int) -> Option<i32> {
    if has_zero(hashes) {
        Some(SENTINEL)
    } else if search_succeeds(hashes, div_start) {
        Some(least_divisor(hashes, div_start) as i32)
    } else {
        None
    }
}

/// Whether `value` is a result that the search may give for the record,
/// whichever worker finds it.
pub open spec fn is_valid_result(hashes: Seq<i32>, div_start: int, value: int) -> bool {
    if has_zero(hashes) {
        value == SENTINEL
    } else {
        qualifies(hashes, div_start, value)
    }
}

/// Two least divisors of one record are equal.
pub proof fn lemma_least_divisor_unique(hashes: Seq<i32>, div_start: int, a: int, b: int)
    requires
        is_least_divisor(hashes, div_start, a),
        is_least_divisor(hashes, div_start, b),
    ensures
        a == b,
{
    if a < b {
        assert(!qualifies(hashes, div_start, a));
    } else if b < a {
        assert(!qualifies(hashes, div_start, b));
    }
}

/// A value that is a least divisor is the least divisor of the record.
pub proof fn lemma_least_divisor_is(hashes: Seq<i32>, div_start: int, c: int)
    requires
        is_least_divisor(hashes, div_start, c),
    ensures
        search_succeeds(hashes, div_start),
        least_divisor(hashes, div_start) == c,
{
    lemma_least_divisor_unique(hashes, div_start, c, least_divisor(hashes, div_start));
}

/// The negation of a multiple of `c` is a multiple of `c`.
proof fn lemma_negated_multiple(h: int, c: int)
    requires
        c >= 1,
        h % c == 0,
    ensures
        (-h) % c == 0,
{
    let q = h / c;
    vstd::arithmetic::div_mod::lemma_fundamental_div_mod(h, c);
    assert(-h == (-q) * c + 0) by (nonlinear_arith)
        requires
            h == c * q + 0,
    ;
    vstd::arithmetic::div_mod::lemma_fundamental_div_mod_converse(-h, c, -q, 0);
}

/// A value divides evenly exactly when it divides the negated value evenly.
proof fn lemma_negation_keeps_divisibility(h: int, c: int)
    requires
        c >= 1,
    ensures
        (h % c == 0) <==> ((-h) % c == 0),
{
    if h % c == 0 {
        lemma_negated_multiple(h, c);
    }
    if (-h) % c == 0 {
        lemma_negated_multiple(-h, c);
    }
}

/// Tells whether a record holds a zero hash value.
pub fn contains_zero(hashes: &[i32]) -> (found: bool)
    ensures
        found == has_zero(hashes@),
{
    let mut i: usize = 0;
    while i < hashes.len()
        invariant
            i <= hashes.len(),
            forall|j: int| 0 <= j < i ==> hashes@[j] != 0,
        decreases hashes.len() - i,
    {
        if hashes[i] == 0 {
            return true;
        }
        i = i + 1;
    }
    false
}

/// Tells whether one hash value leaves a remainder when divided by a positive
/// candidate.
fn leaves_remainder(hash: i32, candidate: i32) -> (r: bool)
    requires
        candidate >= 1,
    ensures
        r == (hash as int % candidate as int != 0),
{
    let magnitude: i64 = if hash < 0 {
        -(hash as i64)
    } else {
        hash as i64
    };
    proof {
        lemma_negation_keeps_divisibility(hash as int, candidate as int);
    }
    magnitude % (candidate as i64) != 0
}

/// Tests one candidate against every hash value of the record: it passes when
/// it divides none of them evenly.
pub fn candidate_passes(candidate: i32, hashes: &[i32]) -> (passes: bool)
    requires
        candidate >= 1,
    ensures
        passes == divides_none(candidate as int, hashes@),
{
    let mut i: usize = 0;
    while i < hashes.len()
        invariant
            i <= hashes.len(),
            candidate >= 1,
            forall|j: int| 0 <= j < i ==> (#[trigger] hashes@[j]) as int % candidate as int != 0,
        decreases hashes.len() - i,
    {
        if !leaves_remainder(hashes[i], candidate) {
            return false;
        }
        i = i + 1;
    }
    true
}

/// What an episode answers to a worker that asks for work.
#[derive(Debug, Clone, Copy, PartialEq, Eq, Structural)]
pub enum Claim {
    /// The next untried candidate, now this worker's to test.
    Candidate(i32),
    /// A passing candidate has been stored: there is nothing left to try.
    Found,
    /// Every candidate up to the largest 32-bit value has been claimed.
    Exhausted,
}

/// The state that the workers of one record share: the next untried
/// candidate, and the passing candidate that was stored last, if any.
#[derive(Debug)]
pub struct SearchEpisode {
    div_start: i32,
    next: Option<i32>,
    found: bool,
    result: i32,
}

impl SearchEpisode {
    /// The start value that the episode was made with.
    pub closed spec fn div_start(&self) -> int {
        self.div_start as int
    }

    /// The next candidate to hand out; one past the largest 32-bit value when
    /// all have been handed out.
    pub closed spec fn next_candidate(&self) -> int {
        match self.next {
            Some(c) => c as int,
            None => i32::MAX + 1,
        }
    }

    /// Whether a passing candidate has been stored.
    pub closed spec fn found(&self) -> bool {
        self.found
    }

    /// The passing candidate stored last; meaningful once `found` holds.
    pub closed spec fn result(&self) -> int {
        self.result as int
    }

    /// The episode serves the record `hashes`: what it has stored, if
    /// anything, qualifies for that record.
    pub open spec fn wf(&self, hashes: Seq<i32>) -> bool {
        self.found() ==> qualifies(hashes, self.div_start(), self.result())
    }

    /// Opens an episode whose first candidate is the start value, or `1`
    /// where the start is not positive.
    pub fn new(div_start: i32) -> (episode: SearchEpisode)
        ensures
            episode.div_start() == div_start,
            episode.next_candidate() == first_candidate(div_start as int),
            !episode.found(),
            forall|hashes: Seq<i32>| #[trigger] episode.wf(hashes),
    {
        let first: i32 = if div_start < 1 {
            1
        } else {
            div_start
        };
        SearchEpisode { div_start, next: Some(first), found: false, result: SENTINEL }
    }

    /// Hands the next untried candidate to the calling worker, unless a
    /// passing candidate is already stored or none is left. No candidate is
    /// handed out twice.
    pub fn claim(&mut self) -> (claim: Claim)
        ensures
            final(self).div_start() == old(self).div_start(),
            final(self).found() == old(self).found(),
            final(self).result() == old(self).result(),
            match claim {
                Claim::Candidate(c) => {
                    &&& !old(self).found()
                    &&& c == old(self).next_candidate()
                    &&& final(self).next_candidate() == c + 1
                },
                Claim::Found => {
                    &&& old(self).found()
                    &&& final(self).next_candidate() == old(self).next_candidate()
                },
                Claim::Exhausted => {
                    &&& !old(self).found()
                    &&& old(self).next_candidate() > i32::MAX
                    &&& final(self).next_candidate() == old(self).next_candidate()
                },
            },
            forall|hashes: Seq<i32>| old(self).wf(hashes) ==> #[trigger] final(self).wf(hashes),
    {
        if self.found {
            return Claim::Found;
        }
        match self.next {
            Some(c) => {
                if c == i32::MAX {
                    self.next = None;
                } else {
                    self.next = Some(c + 1);
                }
                Claim::Candidate(c)
            },
            None => Claim::Exhausted,
        }
    }

    /// Stores a candidate that passed its test. The store that lands last
    /// stays.
    pub fn report_pass(&mut self, candidate: i32)
        ensures
            final(self).div_start() == old(self).div_start(),
            final(self).next_candidate() == old(self).next_candidate(),
            final(self).found(),
            final(self).result() == candidate,
            forall|hashes: Seq<i32>|
                qualifies(hashes, old(self).div_start(), candidate as int)
                    ==> #[trigger] final(self).wf(hashes),
    {
        self.found = true;
        self.result = candidate;
    }

    /// The candidate that the episode settled on, once one has passed.
    pub fn outcome(&self) -> (outcome: Option<i32>)
        ensures
            outcome.is_some() == self.found(),
            outcome matches Some(r) ==> r == self.result(),
            forall|hashes: Seq<i32>|
                outcome matches Some(r) ==> (#[trigger] self.wf(hashes) ==> qualifies(
                    hashes,
                    self.div_start(),
                    r as int,
                )),
    {
        if self.found {
            Some(self.result)
        } else {
            None
        }
    }
}

/// Searches the candidates of a record in increasing order, as a single
/// worker does, and returns the least one that qualifies.
pub fn find_divisor(hashes: &[i32], div_start: i32) -> (divisor: Option<i32>)
    ensures
        match divisor {
            Some(c) => is_least_divisor(hashes@, div_start as int, c as int),
            None => !search_succeeds(hashes@, div_start as int),
        },
{
    let mut episode = SearchEpisode::new(div_start);
    loop
        invariant
            episode.div_start() == div_start,
            first_candidate(div_start as int) <= episode.next_candidate() <= i32::MAX + 1,
            !episode.found() ==> forall|d: int|
                d < episode.next_candidate() ==> !#[trigger] qualifies(
                    hashes@,
                    div_start as int,
                    d,
                ),
            episode.found() ==> is_least_divisor(hashes@, div_start as int, episode.result()),
        ensures
            episode.found() ==> is_least_divisor(hashes@, div_start as int, episode.result()),
            !episode.found() ==> !search_succeeds(hashes@, div_start as int),
        decreases i32::MAX + 1 - episode.next_candidate(),
    {
        match episode.claim() {
            Claim::Candidate(c) => {
                if candidate_passes(c, hashes) {
                    episode.report_pass(c);
                }
            },
            Claim::Found => {
                break ;
            },
            Claim::Exhausted => {
                break ;
            },
        }
    }
    episode.outcome()
}

/// Computes the result of one record: the sentinel where a hash value is
/// zero, whatever the start; otherwise the least divisor that qualifies.
/// Fails only where no 32-bit candidate qualifies.
pub fn resolve_record(hashes: &[i32], div_start: i32) -> (result: Result<i32, SearchError>)
    ensures
        result.ok() == record_result(hashes@, div_start as int),
        has_zero(hashes@) ==> result == Ok::<i32, SearchError>(SENTINEL),
        result matches Ok(v) ==> is_valid_result(hashes@, div_start as int, v as int),
        result matches Ok(v) ==> (v != SENTINEL ==> v >= div_start && divides_none(
            v as int,
            hashes@,
        )),
{
    if contains_zero(hashes) {
        return Ok(SENTINEL);
    }
    match find_divisor(hashes, div_start) {
        Some(c) => {
            proof {
                lemma_least_divisor_is(hashes@, div_start as int, c as int);
            }
            Ok(c)
        },
        None => Err(SearchError::Exhausted),
    }
}

} // verus!
