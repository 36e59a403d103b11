use std::collections::HashMap;
use std::hash::Hasher;

use kubefuzz::fuzz::{
    absorb_coverage, add_coverage, calculate_coverage, check_room, judge_response, sample_dir, sample_file, should_stop,
    CorpusEntry, FuzzResult, FuzzingStats, Response, StopReason, Verdict,
};
use kubefuzz::json::JsonValue;
use kubefuzz::status::{format_last_time, seconds_to_formatted, status_lines};

fn xxhash(text: &str) -> u64 {
    let mut h = twox_hash::XxHash64::with_seed(0);
    h.write(text.as_bytes());
    h.finish()
}

fn refused(code: u16, status: &str, reason: &str, message: &str) -> Response {
    Response::Refused {
        code,
        status: status.to_string(),
        reason: reason.to_string(),
        message: message.to_string(),
    }
}

fn entry(n: i64) -> CorpusEntry {
    CorpusEntry { data: JsonValue::Int(n), constraint: 0 }
}

#[test]
fn coverage_is_the_xxhash_of_the_text() {
    assert_eq!(calculate_coverage("0"), xxhash("0"));
    assert_eq!(calculate_coverage("500InternalErrorboom"), xxhash("500InternalErrorboom"));
    assert_ne!(calculate_coverage("a"), calculate_coverage("b"));
    assert_ne!(calculate_coverage("0"), 0);
}

#[test]
fn accepted_resources_are_saved() {
    assert_eq!(judge_response(&Response::Created), Verdict::SaveAndCoverage(FuzzResult::Accepted, xxhash("0")));
}

#[test]
fn refusals_by_reason() {
    assert_eq!(judge_response(&refused(400, "Failure", "BadRequest", "x")), Verdict::Coverage(1));
    assert_eq!(judge_response(&refused(422, "Failure", "Invalid", "x")), Verdict::Coverage(0));
    assert_eq!(
        judge_response(&refused(500, "Failure", "InternalError", "webhook failed")),
        Verdict::SaveAndCoverage(FuzzResult::Error, xxhash("500InternalErrorwebhook failed"))
    );
    assert_eq!(
        judge_response(&refused(403, "Failure", "Forbidden", "no privileged pods")),
        Verdict::Coverage(xxhash("403Forbiddenno privileged pods"))
    );
}

#[test]
fn same_message_same_coverage() {
    let a = judge_response(&refused(403, "Failure", "Forbidden", "pod may not be privileged"));
    let b = judge_response(&refused(403, "Failure", "Forbidden", "pod may not be privileged"));
    let c = judge_response(&refused(403, "Failure", "Forbidden", "pod x may not be privileged"));
    assert_eq!(a, b);
    assert_ne!(a, c);
}

#[test]
fn some_answers_stop_fuzzing() {
    assert_eq!(
        judge_response(&refused(500, "Failure", "InternalError", "dial tcp: connection refused")),
        Verdict::Stop(StopReason::ConnectionRefused)
    );
    assert_eq!(judge_response(&refused(200, "Success", "", "")), Verdict::Stop(StopReason::Unhandled));
    assert_eq!(judge_response(&Response::Failed), Verdict::Stop(StopReason::Unexpected));
}

#[test]
fn stats_start_at_zero_and_count() {
    let mut st = FuzzingStats::default();
    assert_eq!(st.generated + st.mutated + st.errors + st.accepted + st.corpus_size + st.newcov, 0);
    assert!(!st.exit);
    st.count_generated();
    st.count_mutated();
    st.count_mutated();
    st.count_saved(FuzzResult::Accepted, 5);
    st.count_saved(FuzzResult::Error, 7);
    assert_eq!((st.generated, st.mutated, st.accepted, st.errors), (1, 2, 1, 1));
    assert_eq!(st.last_error, 7);
    assert_eq!(st.last_accepted, 0);
    st.generated = usize::MAX;
    st.count_generated();
    assert_eq!(st.generated, 0);
}

#[test]
fn corpus_takes_new_coverage_once() {
    let mut corpus: HashMap<u64, CorpusEntry> = HashMap::new();
    let mut st = FuzzingStats::default();
    add_coverage(&mut corpus, 10, entry(1), 5, &mut st, 3);
    add_coverage(&mut corpus, 10, entry(2), 5, &mut st, 4);
    assert_eq!(corpus.len(), 1);
    assert_eq!(corpus[&10].data, JsonValue::Int(1));
    assert_eq!(st.newcov, 1);
    assert_eq!(st.last_newcov, 3);
}

#[test]
fn full_corpus_evicts_one_entry() {
    let mut corpus: HashMap<u64, CorpusEntry> = HashMap::new();
    let mut st = FuzzingStats::default();
    for k in 0..3u64 {
        add_coverage(&mut corpus, k, entry(k as i64), 3, &mut st, 1);
    }
    add_coverage(&mut corpus, 99, entry(99), 3, &mut st, 2);
    assert_eq!(corpus.len(), 3);
    assert!(corpus.contains_key(&99));
    assert_eq!(st.newcov, 4);
}

#[test]
fn absorbed_coverage_respects_the_bound() {
    let mut corpus: HashMap<u64, CorpusEntry> = HashMap::new();
    let mut st = FuzzingStats::default();
    let newcov: Vec<(u64, CorpusEntry)> = (0..20u64).map(|k| (k % 7, entry(k as i64))).collect();
    absorb_coverage(&mut corpus, newcov, 4, &mut st, 9);
    assert_eq!(corpus.len(), 4);
    assert_eq!(st.corpus_size, 4);
    assert!(corpus.contains_key(&(19 % 7)));
    assert!(corpus.keys().all(|k| *k < 7));
}

#[test]
fn stop_condition() {
    assert!(!should_stop(0, 1000, false));
    assert!(should_stop(0, 0, true));
    assert!(should_stop(3, 3, false));
    assert!(!should_stop(3, 2, false));
}

#[test]
fn sample_locations() {
    assert_eq!(sample_dir("/tmp/out", FuzzResult::Accepted), "/tmp/out/accepted");
    assert_eq!(sample_dir("/tmp/out", FuzzResult::Error), "/tmp/out/error");
    assert_eq!(sample_file("/tmp/out/error", 12), "/tmp/out/error/12.json");
}

#[test]
fn sample_room() {
    assert!(check_room("/d", 49, 50).is_ok());
    assert_eq!(check_room("/d", 50, 50), Err("max number of samples on disk reached for /d".to_string()));
}

#[test]
fn durations_as_text() {
    assert_eq!(seconds_to_formatted(0), "0 seconds");
    assert_eq!(seconds_to_formatted(59), "59 seconds");
    assert_eq!(seconds_to_formatted(61), "1 minutes, 1 seconds");
    assert_eq!(seconds_to_formatted(3600), "1 hours, 0 seconds");
    assert_eq!(seconds_to_formatted(90061), "1 days, 1 hours, 1 minutes, 1 seconds");
    assert_eq!(seconds_to_formatted(172800 + 120), "2 days, 2 minutes, 0 seconds");
}

#[test]
fn last_times_as_text() {
    assert_eq!(format_last_time(100, 0), "(none seen)");
    assert_eq!(format_last_time(100, 40), "(last: 1 minutes, 0 seconds ago)");
    assert_eq!(format_last_time(5, 5), "(last: 0 seconds ago)");
}

#[test]
fn status_screen_lines() {
    let mut st = FuzzingStats::default();
    st.generated = 100;
    st.mutated = 7;
    st.errors = 2;
    st.last_error = 8;
    st.corpus_size = 3;
    st.newcov = 4;
    st.last_newcov = 10;
    let lines = status_lines(&st, 10);
    assert_eq!(
        lines,
        vec![
            "Running for 10 seconds ",
            "Generated: 100 (10/s)",
            "Mutated: 7 (0/s)",
            "Errors: 2 (last: 2 seconds ago)",
            "Accepted: 0 (none seen)",
            "Corpus Size: 3",
            "New Coverage hits: 4 (last: 0 seconds ago)",
        ]
    );
    let lines = status_lines(&FuzzingStats::default(), 0);
    assert_eq!(lines[0], "Running for 1 seconds ");
    assert_eq!(lines[1], "Generated: 0 (0/s)");
}
