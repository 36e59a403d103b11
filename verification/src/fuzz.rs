//! The decisions of the fuzzing loop: how the API's answer to a dry-run
//! submission is judged, how new coverage enters the bounded corpus, when
//! the loop stops, and the running statistics the status screen shows.

use vstd::prelude::*;
use std::collections::HashMap;
use crate::json::JsonValue;
use crate::text::{contains, decimal, push_str, u64_to_string};

verus! {

/// The running statistics of a fuzzing session. Times are whole seconds
/// since the session started; zero means "never".
#[derive(Debug, Clone, Copy, PartialEq, Eq, Structural)]
pub struct FuzzingStats {
    pub exit: bool,
    pub generated: usize,
    pub mutated: usize,
    pub errors: usize,
    pub accepted: usize,
    pub corpus_size: usize,
    pub newcov: usize,
    pub last_newcov: u64,
    pub last_error: u64,
    pub last_accepted: u64,
}

impl Default for FuzzingStats {
    /// Statistics of a session that has not done anything yet.
    fn default() -> (r: Self)
        ensures
            r == (FuzzingStats {
                exit: false,
                generated: 0,
                mutated: 0,
                errors: 0,
                accepted: 0,
                corpus_size: 0,
                newcov: 0,
                last_newcov: 0,
                last_error: 0,
                last_accepted: 0,
            }),
    {
        FuzzingStats {
            exit: false,
            generated: 0,
            mutated: 0,
            errors: 0,
            accepted: 0,
            corpus_size: 0,
            newcov: 0,
            last_newcov: 0,
            last_error: 0,
            last_accepted: 0,
        }
    }
}

/// A counter after one more event; counters wrap around as atomics do.
pub open spec fn bumped(n: usize) -> usize {
    if n == usize::MAX {
        0
    } else {
        (n + 1) as usize
    }
}

/// Where a saved sample goes.
#[derive(Debug, Clone, Copy, PartialEq, Eq, Structural)]
pub enum FuzzResult {
    Accepted,
    Error,
}

impl FuzzingStats {
    /// One more generated resource.
    pub fn count_generated(&mut self)
        ensures
            *final(self) == (FuzzingStats { generated: bumped(old(self).generated), ..*old(self) }),
    {
        self.generated = self.generated.wrapping_add(1);
    }

    /// One more mutated resource.
    pub fn count_mutated(&mut self)
        ensures
            *final(self) == (FuzzingStats { mutated: bumped(old(self).mutated), ..*old(self) }),
    {
        self.mutated = self.mutated.wrapping_add(1);
    }

    /// One more saved sample, `elapsed` seconds into the session: an
    /// accepted one is counted; an error is counted and its time kept.
    pub fn count_saved(&mut self, result: FuzzResult, elapsed: u64)
        ensures
            result == FuzzResult::Accepted ==> *final(self) == (FuzzingStats {
                accepted: bumped(old(self).accepted),
                ..*old(self)
            }),
            result == FuzzResult::Error ==> *final(self) == (FuzzingStats {
                errors: bumped(old(self).errors),
                last_error: elapsed,
                ..*old(self)
            }),
    {
        match result {
            FuzzResult::Accepted => {
                self.accepted = self.accepted.wrapping_add(1);
            },
            FuzzResult::Error => {
                self.errors = self.errors.wrapping_add(1);
                self.last_error = elapsed;
            },
        }
    }
}

/// What the API answered to a dry-run submission.
#[derive(Debug, Clone)]
pub enum Response {
    /// The resource was accepted.
    Created,
    /// The API refused it with a status.
    Refused { code: u16, status: String, reason: String, message: String },
    /// The request failed in another way.
    Failed,
}

/// Why fuzzing has to stop.
#[derive(Debug, Clone, Copy, PartialEq, Eq, Structural)]
pub enum StopReason {
    /// An admission controller could not be reached.
    ConnectionRefused,
    /// The API answered with a status other than `Failure`.
    Unhandled,
    /// The request failed without an answer from the API.
    Unexpected,
}

/// What to do with a submitted sample.
#[derive(Debug, Clone, Copy, PartialEq, Eq, Structural)]
pub enum Verdict {
    /// Stop fuzzing.
    Stop(StopReason),
    /// The sample reached this coverage.
    Coverage(u64),
    /// Save the sample under this result, then count it: it reached this
    /// coverage.
    SaveAndCoverage(FuzzResult, u64),
}

/// The 64-bit xxHash, seeded with zero, of a text's UTF-8 bytes.
pub uninterp spec fn xxhash64_text(text: Seq<char>) -> u64;

/// Hashes a text with `twox_hash::XxHash64` seeded with zero: `write` of
/// the text's bytes, then `finish`. The result is taken to be a function of
/// the text alone.
#[verifier::external_body]
fn xxhash64(text: &str) -> (r: u64)
    ensures
        r == xxhash64_text(text@),
{
    let mut hasher = twox_hash::XxHash64::with_seed(0);
    std::hash::Hasher::write(&mut hasher, text.as_bytes());
    std::hash::Hasher::finish(&hasher)
}

/// The coverage an answer text stands for: its hash.
pub fn calculate_coverage(errormsg: &str) -> (r: u64)
    ensures
        r == xxhash64_text(errormsg@),
{
    xxhash64(errormsg)
}

/// The text whose hash is a refusal's coverage: the status code, the
/// reason and the message.
pub open spec fn refusal_text(code: u16, reason: Seq<char>, message: Seq<char>) -> Seq<char> {
    decimal(code as nat) + reason + message
}

/// How an answer is judged. An accepted resource is saved and reaches the
/// coverage of the text `0`. A refusal whose message tells of a refused
/// connection, or whose status is not `Failure`, stops fuzzing. Otherwise
/// its reason decides: `BadRequest` is coverage 1 and `Invalid` coverage 0
/// (neither is saved); `InternalError` is saved as an error; any other
/// reason is coverage only. Those two reach the coverage of the refusal's
/// text. Any other failure stops fuzzing.
pub open spec fn judged(
    created: bool,
    refused: Option<(u16, Seq<char>, Seq<char>, Seq<char>)>,
) -> Verdict {
    if created {
        Verdict::SaveAndCoverage(FuzzResult::Accepted, xxhash64_text("0"@))
    } else {
        match refused {
            Some((code, status, reason, message)) => {
                if crate::text::contains_seq(message, "connection refused"@) {
                    Verdict::Stop(StopReason::ConnectionRefused)
                } else if status != "Failure"@ {
                    Verdict::Stop(StopReason::Unhandled)
                } else if reason == "BadRequest"@ {
                    Verdict::Coverage(1)
                } else if reason == "Invalid"@ {
                    Verdict::Coverage(0)
                } else if reason == "InternalError"@ {
                    Verdict::SaveAndCoverage(
                        FuzzResult::Error,
                        xxhash64_text(refusal_text(code, reason, message)),
                    )
                } else {
                    Verdict::Coverage(xxhash64_text(refusal_text(code, reason, message)))
                }
            },
            None => Verdict::Stop(StopReason::Unexpected),
        }
    }
}

/// The parts of a response the judgement reads.
pub open spec fn response_parts(r: Response) -> (bool, Option<(u16, Seq<char>, Seq<char>, Seq<char>)>) {
    match r {
        Response::Created => (true, None),
        Response::Refused { code, status, reason, message } => (false, Some((code, status@, reason@, message@))),
        Response::Failed => (false, None),
    }
}

/// Judges the API's answer to a submitted sample (see [`judged`]).
pub fn judge_response(response: &Response) -> (v: Verdict)
    ensures
        v == judged(response_parts(*response).0, response_parts(*response).1),
{
    proof {
        reveal_strlit("0");
    }
    match response {
        Response::Created => Verdict::SaveAndCoverage(FuzzResult::Accepted, calculate_coverage("0")),
        Response::Refused { code, status, reason, message } => {
            if contains(message.as_str(), "connection refused") {
                return Verdict::Stop(StopReason::ConnectionRefused);
            }
            if !crate::text::str_eq(status.as_str(), "Failure") {
                return Verdict::Stop(StopReason::Unhandled);
            }
            if crate::text::str_eq(reason.as_str(), "BadRequest") {
                return Verdict::Coverage(1);
            }
            if crate::text::str_eq(reason.as_str(), "Invalid") {
                return Verdict::Coverage(0);
            }
            let mut text = u64_to_string(*code as u64);
            push_str(&mut text, reason.as_str());
            push_str(&mut text, message.as_str());
            proof {
                assert(text@ =~= refusal_text(*code, reason@, message@));
            }
            let cov = calculate_coverage(text.as_str());
            if crate::text::str_eq(reason.as_str(), "InternalError") {
                Verdict::SaveAndCoverage(FuzzResult::Error, cov)
            } else {
                Verdict::Coverage(cov)
            }
        },
        Response::Failed => Verdict::Stop(StopReason::Unexpected),
    }
}

/// A sample in the corpus, with the position of the constraint it was made
/// for.
#[derive(Debug)]
pub struct CorpusEntry {
    pub data: JsonValue,
    pub constraint: usize,
}

/// Some key of a map that is not empty (the first one its walk gives).
fn any_key(corpus: &HashMap<u64, CorpusEntry>) -> (k: u64)
    requires
        corpus@.len() > 0,
    ensures
        corpus@.contains_key(k),
{
    broadcast use vstd::std_specs::hash::group_hash_axioms;
    for k in it: corpus.keys()
        invariant
            corpus@.len() > 0,
            it.seq().unref().to_set() == corpus@.dom(),
            it.index() == 0,
        ensures
            corpus@.len() == 0,
    {
        proof {
            assert(it.seq().unref()[0] == *k);
            assert(it.seq().unref().contains(*k));
        }
        return *k;
    }
    0
}

/// Takes a sample with new coverage `cov` into the corpus, unless that
/// coverage is already there. When the corpus is full, some entry leaves
/// first. New coverage is counted, with its time.
pub fn add_coverage(
    corpus: &mut HashMap<u64, CorpusEntry>,
    cov: u64,
    entry: CorpusEntry,
    max_corpus_count: usize,
    stats: &mut FuzzingStats,
    elapsed: u64,
)
    requires
        max_corpus_count > 0,
    ensures
        old(corpus)@.contains_key(cov) ==> final(corpus)@ == old(corpus)@ && *final(stats) == *old(stats),
        !old(corpus)@.contains_key(cov) ==> {
            &&& old(corpus)@.len() < max_corpus_count ==> final(corpus)@ == old(corpus)@.insert(cov, entry)
            &&& old(corpus)@.len() >= max_corpus_count ==> exists|k: u64|
                old(corpus)@.contains_key(k) && final(corpus)@ == old(corpus)@.remove(k).insert(cov, entry)
            &&& *final(stats) == (FuzzingStats {
                newcov: bumped(old(stats).newcov),
                last_newcov: elapsed,
                ..*old(stats)
            })
        },
{
    broadcast use vstd::std_specs::hash::group_hash_axioms;
    if corpus.contains_key(&cov) {
        return;
    }
    if corpus.len() >= max_corpus_count {
        let key = any_key(corpus);
        corpus.remove(&key);
    }
    corpus.insert(cov, entry);
    stats.newcov = stats.newcov.wrapping_add(1);
    stats.last_newcov = elapsed;
}

/// Taking one sample into the corpus as `add_coverage` does (a known
/// coverage changes nothing; a new one is inserted, evicting one other
/// entry when the corpus is full) never shrinks the corpus nor grows it
/// past its bound: it grows by one below the bound and keeps its size at
/// or above it, and every other entry that stays is unchanged.
pub proof fn law_take_in_keeps_size(
    m0: Map<u64, CorpusEntry>,
    m1: Map<u64, CorpusEntry>,
    cov: u64,
    entry: CorpusEntry,
    max_corpus_count: usize,
)
    requires
        m0.dom().finite(),
        max_corpus_count > 0,
        m0.contains_key(cov) ==> m1 == m0,
        !m0.contains_key(cov) ==> {
            &&& m0.len() < max_corpus_count ==> m1 == m0.insert(cov, entry)
            &&& m0.len() >= max_corpus_count ==> exists|k: u64|
                m0.contains_key(k) && m1 == m0.remove(k).insert(cov, entry)
        },
    ensures
        m1.dom().finite(),
        m1.len() <= m0.len() || m1.len() <= max_corpus_count,
        m1.contains_key(cov),
        forall|k: u64| m1.contains_key(k) ==> m0.contains_key(k) || k == cov,
        forall|k: u64| m1.contains_key(k) && k != cov ==> m0.contains_key(k) && m1[k] == m0[k],
        m1.len() >= m0.len(),
        !m0.contains_key(cov) && m0.len() < max_corpus_count ==> m1.len() == m0.len() + 1,
{
    if !m0.contains_key(cov) {
        if m0.len() >= max_corpus_count {
            let k = choose|k: u64| m0.contains_key(k) && m1 == m0.remove(k).insert(cov, entry);
            m0.lemma_remove_key_len(k);
            assert(!m0.remove(k).contains_key(cov));
            assert(m1.dom() == m0.remove(k).dom().insert(cov));
            assert(m1.len() == m0.remove(k).len() + 1);
        } else {
            assert(m1.dom() == m0.dom().insert(cov));
            assert(m1.len() == m0.len() + 1);
        }
    }
}

/// How many distinct coverages among `covs` the keys `old` do not hold.
pub open spec fn fresh_keys(covs: Seq<(u64, CorpusEntry)>, old: Set<u64>) -> nat
    decreases covs.len(),
{
    if covs.len() == 0 {
        0
    } else {
        let prev = covs.drop_last();
        let k = covs.last().0;
        fresh_keys(prev, old) + if !old.contains(k) && !(exists|q: int| 0 <= q < prev.len() && #[trigger] prev[q].0 == k) {
            1nat
        } else {
            0nat
        }
    }
}

/// Takes each sample with its coverage into the corpus in turn (see
/// [`add_coverage`]), then records the corpus' size. A corpus within its
/// bound stays within it; it holds only what it held and the new coverage,
/// and the last sample's coverage is always in it.
pub fn absorb_coverage(
    corpus: &mut HashMap<u64, CorpusEntry>,
    newcov: Vec<(u64, CorpusEntry)>,
    max_corpus_count: usize,
    stats: &mut FuzzingStats,
    elapsed: u64,
)
    requires
        max_corpus_count > 0,
    ensures
        old(corpus)@.len() <= max_corpus_count ==> final(corpus)@.len() <= max_corpus_count,
        final(corpus)@.len() <= old(corpus)@.len() || final(corpus)@.len() <= max_corpus_count,
        forall|k: u64|
            final(corpus)@.contains_key(k) ==> old(corpus)@.contains_key(k) || exists|i: int|
                0 <= i < newcov@.len() && (#[trigger] newcov@[i]).0 == k,
        newcov@.len() > 0 ==> final(corpus)@.contains_key(newcov@.last().0),
        forall|k: u64|
            old(corpus)@.contains_key(k) && final(corpus)@.contains_key(k) && (forall|i: int|
                0 <= i < newcov@.len() ==> (#[trigger] newcov@[i]).0 != k) ==> final(corpus)@[k] == old(
                corpus,
            )@[k],
        forall|k: u64|
            #[trigger] final(corpus)@.contains_key(k) ==> (old(corpus)@.contains_key(k) && final(corpus)@[k] == old(
                corpus,
            )@[k]) || exists|i: int| 0 <= i < newcov@.len() && newcov@[i] == (k, final(corpus)@[k]),
        final(corpus)@.len() >= old(corpus)@.len(),
        final(corpus)@.len() >= max_corpus_count || final(corpus)@.len() >= old(corpus)@.len() + fresh_keys(
            newcov@,
            old(corpus)@.dom(),
        ),
        final(stats).corpus_size == final(corpus)@.len(),
        final(stats).exit == old(stats).exit,
        final(stats).generated == old(stats).generated,
        final(stats).mutated == old(stats).mutated,
        final(stats).errors == old(stats).errors,
        final(stats).accepted == old(stats).accepted,
        final(stats).last_error == old(stats).last_error,
        final(stats).last_accepted == old(stats).last_accepted,
{
    broadcast use vstd::std_specs::hash::group_hash_axioms;
    let ghost m0 = corpus@;
    let ghost s0 = *stats;
    let ghost covs = newcov@;
    let mut rest = newcov;
    let n = rest.len();
    let mut i: usize = 0;
    while i < n
        invariant
            max_corpus_count > 0,
            i <= n,
            n == covs.len(),
            rest@.len() == n - i,
            forall|j: int| 0 <= j < rest@.len() ==> (#[trigger] rest@[j]) == covs[i + j],
            forall|k: u64|
                #[trigger] corpus@.contains_key(k) ==> (m0.contains_key(k) && corpus@[k] == m0[k]) || exists|q: int|
                    0 <= q < i && covs[q] == (k, corpus@[k]),
            corpus@.dom().finite(),
            corpus@.len() <= m0.len() || corpus@.len() <= max_corpus_count,
            corpus@.len() >= m0.len(),
            corpus@.len() >= max_corpus_count || corpus@.len() >= m0.len() + fresh_keys(covs.take(i as int), m0.dom()),
            forall|k: u64|
                corpus@.contains_key(k) ==> m0.contains_key(k) || exists|q: int|
                    0 <= q < i && (#[trigger] covs[q]).0 == k,
            i > 0 ==> corpus@.contains_key(covs[i - 1].0),
            forall|k: u64|
                m0.contains_key(k) && corpus@.contains_key(k) && (forall|q: int|
                    0 <= q < i ==> (#[trigger] covs[q]).0 != k) ==> corpus@[k] == m0[k],
            stats.exit == s0.exit,
            stats.generated == s0.generated,
            stats.mutated == s0.mutated,
            stats.errors == s0.errors,
            stats.accepted == s0.accepted,
            stats.last_error == s0.last_error,
            stats.last_accepted == s0.last_accepted,
        decreases n - i,
    {
        let ghost before = rest@;
        let ghost c0 = corpus@;
        let (cov, entry) = rest.remove(0);
        proof {
            assert(cov == covs[i as int].0);
            assert(entry == covs[i as int].1);
            assert forall|j: int| 0 <= j < rest@.len() implies (#[trigger] rest@[j]) == covs[i + 1 + j] by {
                assert(rest@[j] == before[j + 1]);
            }
        }
        let ghost e = entry;
        add_coverage(corpus, cov, entry, max_corpus_count, stats, elapsed);
        proof {
            law_take_in_keeps_size(c0, corpus@, cov, e, max_corpus_count);
            let t1 = covs.take(i + 1);
            assert(t1.drop_last() =~= covs.take(i as int));
            assert(t1.last() == covs[i as int]);
            if !m0.contains_key(cov) && !(exists|q: int| 0 <= q < i && #[trigger] covs.take(i as int)[q].0 == cov) {
                if c0.contains_key(cov) {
                    let q = choose|q: int| 0 <= q < i && (#[trigger] covs[q]).0 == cov;
                    assert(covs.take(i as int)[q].0 == cov);
                }
            }
            assert forall|k: u64|
                m0.contains_key(k) && corpus@.contains_key(k) && (forall|q: int|
                    0 <= q < i + 1 ==> (#[trigger] covs[q]).0 != k) implies corpus@[k] == m0[k] by {
                assert(covs[i as int].0 != k);
            }
            assert forall|k: u64| #[trigger] corpus@.contains_key(k) implies (m0.contains_key(k) && corpus@[k] == m0[k])
                || exists|q: int| 0 <= q < i + 1 && covs[q] == (k, corpus@[k]) by {
                if k == cov {
                    if !c0.contains_key(cov) {
                        assert(corpus@[k] == e);
                        assert(covs[i as int] == (k, corpus@[k]));
                    } else {
                        assert(corpus@ == c0);
                        if !(m0.contains_key(k) && c0[k] == m0[k]) {
                            let q = choose|q: int| 0 <= q < i && covs[q] == (k, c0[k]);
                            assert(covs[q] == (k, corpus@[k]));
                        }
                    }
                } else {
                    assert(c0.contains_key(k) && corpus@[k] == c0[k]);
                    if !(m0.contains_key(k) && c0[k] == m0[k]) {
                        let q = choose|q: int| 0 <= q < i && covs[q] == (k, c0[k]);
                        assert(covs[q] == (k, corpus@[k]));
                    }
                }
            }
            assert forall|k: u64| corpus@.contains_key(k) implies m0.contains_key(k) || exists|q: int|
                0 <= q < i + 1 && (#[trigger] covs[q]).0 == k by {
                if !c0.contains_key(k) {
                    assert(k == cov);
                    assert(covs[i as int].0 == k);
                } else if !m0.contains_key(k) {
                    let q = choose|q: int| 0 <= q < i && (#[trigger] covs[q]).0 == k;
                    assert(covs[q].0 == k);
                }
            }
        }
        i = i + 1;
    }
    proof {
        assert(covs.take(n as int) =~= covs);
    }
    stats.corpus_size = corpus.len();
}

/// Whether the fuzzing loop stops once `completed` iterations are done:
/// when the set number of iterations is reached (zero sets no limit), or on
/// request.
pub fn should_stop(iterations: usize, completed: usize, exit: bool) -> (b: bool)
    ensures
        b == ((iterations != 0 && completed >= iterations) || exit),
{
    iterations != 0 && completed >= iterations || exit
}

/// The name of the directory that holds saved samples of one kind.
pub open spec fn result_dir_name(result: FuzzResult) -> Seq<char> {
    match result {
        FuzzResult::Accepted => "accepted"@,
        FuzzResult::Error => "error"@,
    }
}

/// The directory below the fuzzing directory that holds saved samples of
/// one kind.
pub fn sample_dir(fuzzdir: &str, result: FuzzResult) -> (r: String)
    ensures
        r@ == fuzzdir@.push('/') + result_dir_name(result),
{
    let mut r = String::new();
    push_str(&mut r, fuzzdir);
    crate::text::push_char(&mut r, '/');
    match result {
        FuzzResult::Accepted => push_str(&mut r, "accepted"),
        FuzzResult::Error => push_str(&mut r, "error"),
    }
    proof {
        reveal_strlit("accepted");
        reveal_strlit("error");
        assert(r@ =~= fuzzdir@.push('/') + result_dir_name(result));
    }
    r
}

/// Whether a directory of saved samples that holds `count` files may take
/// one more: not once it holds its limit.
pub fn check_room(dirpath: &str, count: usize, limit: usize) -> (r: Result<(), String>)
    ensures
        r is Ok <==> count < limit,
        r matches Err(m) ==> m@ == "max number of samples on disk reached for "@ + dirpath@,
{
    if count >= limit {
        let mut m = crate::text::owned("max number of samples on disk reached for ");
        push_str(&mut m, dirpath);
        return Err(m);
    }
    Ok(())
}

/// The file the `n`-th saved sample is written to: `<dir>/<n>.json`.
pub fn sample_file(dirpath: &str, n: u64) -> (r: String)
    ensures
        r@ == dirpath@.push('/') + decimal(n as nat) + ".json"@,
{
    let mut r = String::new();
    push_str(&mut r, dirpath);
    crate::text::push_char(&mut r, '/');
    crate::text::push_decimal(&mut r, n);
    push_str(&mut r, ".json");
    proof {
        assert(r@ =~= dirpath@.push('/') + decimal(n as nat) + ".json"@);
    }
    r
}

} // verus!
