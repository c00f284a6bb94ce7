//! Workspace indexing logic: the bounded retry policy for a server that
//! is still building its index, the multi-strategy symbol-query plan,
//! and the project-boundary filter over the returned file URIs.
//!
//! The waiting itself (sleeping, re-sending the query) is I/O and lives
//! with the caller; this module decides, for every state and server
//! answer, what happens next.

use vstd::prelude::*;

verus! {

/// The server error code that means "still indexing": the only code the
/// retry loop treats as transient.
pub const INDEXING_ERROR_CODE: i64 = -32801;

/// The fixed pause between retry attempts, in milliseconds.
pub const RETRY_INTERVAL_MS: u64 = 100;

/// What the retry loop does after one failed attempt.
#[derive(Clone, Copy, PartialEq, Eq, Structural, Debug)]
pub enum RetryDecision {
    /// Sleep for the retry interval and ask again.
    Retry,
    /// The retry budget is exhausted: the run fails with an
    /// indexing-timeout error.
    Timeout,
    /// The error is not the indexing code: an unexpected protocol
    /// failure, fatal for the run.
    Fatal,
}

/// How many retries a maximum wait allows: one per full interval.
pub fn retry_budget(max_wait_ms: u64, interval_ms: u64) -> (r: u64)
    requires
        interval_ms > 0,
    ensures
        r == max_wait_ms / interval_ms,
{
    max_wait_ms / interval_ms
}

/// The retry decision for a failed attempt: the budget left and the
/// decision taken.
pub open spec fn spec_retry_step(retries_left: u64, code: i64) -> (RetryDecision, u64) {
    if code != INDEXING_ERROR_CODE {
        (RetryDecision::Fatal, retries_left)
    } else if retries_left == 0 {
        (RetryDecision::Timeout, 0)
    } else {
        (RetryDecision::Retry, (retries_left - 1) as u64)
    }
}

/// Decides what a failed workspace-symbol attempt means: any code other
/// than the distinguished indexing code is fatal; the indexing code is
/// retried while budget remains and times the run out when none does.
/// Returns the decision and the budget left for the next attempt.
pub fn retry_step(retries_left: u64, code: i64) -> (r: (RetryDecision, u64))
    ensures
        r == spec_retry_step(retries_left, code),
        code != INDEXING_ERROR_CODE ==> r.0 == RetryDecision::Fatal,
        code == INDEXING_ERROR_CODE && retries_left == 0 ==> r.0 == RetryDecision::Timeout,
        code == INDEXING_ERROR_CODE && retries_left > 0 ==> r.0 == RetryDecision::Retry && r.1
            == retries_left - 1,
{
    if code != INDEXING_ERROR_CODE {
        (RetryDecision::Fatal, retries_left)
    } else if retries_left == 0 {
        (RetryDecision::Timeout, 0)
    } else {
        (RetryDecision::Retry, retries_left - 1)
    }
}

/// The budget left after `k` failed attempts that all returned the
/// retryable code, starting from `start`.
pub open spec fn budget_after(start: u64, k: nat) -> u64
    decreases k,
{
    if k == 0 {
        start
    } else {
        spec_retry_step(budget_after(start, (k - 1) as nat), INDEXING_ERROR_CODE).1
    }
}

/// Retry-bound law: if every attempt fails with the retryable code, then
/// starting from a budget of `start` the decision is `Retry` for exactly
/// the first `start` steps — the budget after `k` such steps is
/// `start - k` — and `Timeout` at step `start`, so exactly `start`
/// retries are attempted before the run times out.
pub proof fn lemma_retry_bound(start: u64, k: nat)
    requires
        k <= start,
    ensures
        budget_after(start, k) == start - k,
        k < start ==> spec_retry_step(budget_after(start, k), INDEXING_ERROR_CODE).0
            == RetryDecision::Retry,
        k == start ==> spec_retry_step(budget_after(start, k), INDEXING_ERROR_CODE).0
            == RetryDecision::Timeout,
    decreases k,
{
    if k > 0 {
        lemma_retry_bound(start, (k - 1) as nat);
    }
}

/// The query plan of the indexer: a search-widening marker query first,
/// then the empty query, then one query per lowercase letter. No single
/// workspace-symbol query is guaranteed to surface every symbol, so the
/// union of all these is taken.
pub open spec fn query_plan() -> Seq<Seq<u8>> {
    Seq::new(
        28,
        |i: int|
            if i == 0 {
                seq![35u8]
            } else if i == 1 {
                Seq::<u8>::empty()
            } else {
                seq![(95 + i) as u8]
            },
    )
}

/// Builds the indexer's query strings: `#`, the empty string, then
/// `a` through `z`, in that order.
pub fn workspace_queries() -> (r: Vec<Vec<u8>>)
    ensures
        r.deep_view() == query_plan(),
{
    let mut out: Vec<Vec<u8>> = Vec::new();
    let marker: Vec<u8> = vec![35u8];
    out.push(marker);
    let empty: Vec<u8> = Vec::new();
    out.push(empty);
    let mut letter: u8 = 97;
    while letter < 123
        invariant
            97 <= letter <= 123,
            out.deep_view().len() == letter - 95,
            forall|i: int| 0 <= i < letter - 95 ==> out.deep_view()[i] == query_plan()[i],
        decreases 123 - letter,
    {
        let q: Vec<u8> = vec![letter];
        out.push(q);
        letter += 1;
    }
    proof {
        assert(out.deep_view() =~= query_plan());
    }
    out
}

/// Whether `p` is a prefix of `s`: the project-boundary test on URIs.
pub fn bytes_starts_with(s: &Vec<u8>, p: &Vec<u8>) -> (r: bool)
    ensures
        r == p@.is_prefix_of(s@),
{
    if p.len() > s.len() {
        return false;
    }
    let mut i: usize = 0;
    while i < p.len()
        invariant
            p@.len() <= s@.len(),
            i <= p@.len(),
            forall|j: int| 0 <= j < i ==> s@[j] == p@[j],
        decreases p@.len() - i,
    {
        if s[i] != p[i] {
            return false;
        }
        i += 1;
    }
    proof {
        assert(s@.take(p@.len() as int) =~= p@);
    }
    true
}

/// Whether `list` already holds a byte string equal to `x`.
pub fn contains_bytes(list: &Vec<Vec<u8>>, x: &Vec<u8>) -> (r: bool)
    ensures
        r == list.deep_view().contains(x@),
{
    let mut i: usize = 0;
    while i < list.len()
        invariant
            i <= list@.len(),
            forall|j: int| 0 <= j < i ==> list.deep_view()[j] != x@,
        decreases list@.len() - i,
    {
        proof {
            assert(list.deep_view()[i as int] == list@[i as int]@);
        }
        if crate::item::bytes_eq(&list[i], x) {
            return true;
        }
        i += 1;
    }
    false
}

/// The project-boundary filter: of all file URIs the symbol queries
/// returned, keep exactly those inside the project root, each once.
/// URIs outside the root (dependency or standard-library sources) are
/// discarded.
pub fn filter_project_files(uris: &Vec<Vec<u8>>, project_root: &Vec<u8>) -> (r: Vec<Vec<u8>>)
    ensures
        forall|j: int|
            0 <= j < r.deep_view().len() ==> project_root@.is_prefix_of(r.deep_view()[j])
                && uris.deep_view().contains(r.deep_view()[j]),
        forall|i: int|
            0 <= i < uris.deep_view().len() && project_root@.is_prefix_of(uris.deep_view()[i])
                ==> r.deep_view().contains(uris.deep_view()[i]),
        r.deep_view().no_duplicates(),
{
    let mut out: Vec<Vec<u8>> = Vec::new();
    let mut i: usize = 0;
    while i < uris.len()
        invariant
            i <= uris@.len(),
            forall|j: int|
                0 <= j < out.deep_view().len() ==> project_root@.is_prefix_of(out.deep_view()[j])
                    && uris.deep_view().contains(out.deep_view()[j]),
            forall|k: int|
                0 <= k < i && project_root@.is_prefix_of(uris.deep_view()[k])
                    ==> out.deep_view().contains(uris.deep_view()[k]),
            out.deep_view().no_duplicates(),
        decreases uris@.len() - i,
    {
        proof {
            assert(uris.deep_view()[i as int] == uris@[i as int]@);
        }
        let uri = &uris[i];
        if bytes_starts_with(uri, project_root) && !contains_bytes(&out, uri) {
            let ghost prev = out.deep_view();
            let copy = crate::item::clone_bytes(uri);
            out.push(copy);
            proof {
                assert(out.deep_view() =~= prev.push(uris@[i as int]@));
                assert(out.deep_view()[prev.len() as int] == uris.deep_view()[i as int]);
                assert(out.deep_view().contains(uris.deep_view()[i as int]));
                assert forall|e: Seq<u8>| prev.contains(e) implies out.deep_view().contains(
                    e,
                ) by {
                    let j = choose|j: int| 0 <= j < prev.len() && prev[j] == e;
                    assert(out.deep_view()[j] == e);
                }
            }
        }
        i += 1;
    }
    out
}

} // verus!
