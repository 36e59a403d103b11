//! The text of the fuzzing status screen.

use vstd::prelude::*;
use crate::fuzz::FuzzingStats;
use crate::text::{decimal, owned, push_decimal, push_str};

verus! {

/// `n` followed by its unit, or nothing when `n` is zero.
pub open spec fn part(n: nat, unit: Seq<char>) -> Seq<char> {
    if n > 0 {
        decimal(n) + unit
    } else {
        Seq::empty()
    }
}

/// A number of seconds as days, hours, minutes and seconds, leaving out
/// the larger units that are zero: `1 days, 2 minutes, 5 seconds`.
pub open spec fn formatted_duration(s: nat) -> Seq<char> {
    part(s / 86400, " days, "@) + part((s % 86400) / 3600, " hours, "@) + part(
        (s % 3600) / 60,
        " minutes, "@,
    ) + decimal(s % 60) + " seconds"@
}

/// Appends `n` and its unit when `n` is not zero.
fn push_part(f: &mut String, n: u64, unit: &str)
    ensures
        final(f)@ == old(f)@ + part(n as nat, unit@),
{
    if n > 0 {
        push_decimal(f, n);
        push_str(f, unit);
        proof {
            assert(final(f)@ =~= old(f)@ + part(n as nat, unit@));
        }
    } else {
        proof {
            assert(f@ =~= old(f)@ + part(n as nat, unit@));
        }
    }
}

/// A number of seconds as text (see [`formatted_duration`]).
pub fn seconds_to_formatted(s: u64) -> (r: String)
    ensures
        r@ == formatted_duration(s as nat),
{
    let days = s / (24 * 60 * 60);
    let hours = (s % (24 * 60 * 60)) / (60 * 60);
    let minutes = (s % (60 * 60)) / 60;
    let seconds = s % 60;
    let mut formatted = String::new();
    push_part(&mut formatted, days, " days, ");
    let ghost a = formatted@;
    push_part(&mut formatted, hours, " hours, ");
    let ghost b = formatted@;
    push_part(&mut formatted, minutes, " minutes, ");
    let ghost c = formatted@;
    push_decimal(&mut formatted, seconds);
    push_str(&mut formatted, " seconds");
    proof {
        assert(a =~= part(s as nat / 86400, " days, "@));
        assert(b =~= a + part((s as nat % 86400) / 3600, " hours, "@));
        assert(c =~= b + part((s as nat % 3600) / 60, " minutes, "@));
        assert(formatted@ =~= formatted_duration(s as nat));
    }
    formatted
}

/// How long ago something last happened, `elapsed` seconds into the
/// session: `(none seen)` when it never did (its time is zero).
pub open spec fn last_time_text(elapsed: u64, last: u64) -> Seq<char> {
    if last == 0 {
        "(none seen)"@
    } else {
        "(last: "@ + formatted_duration((elapsed - last) as nat) + " ago)"@
    }
}

/// How long ago something last happened (see [`last_time_text`]).
pub fn format_last_time(elapsed: u64, last: u64) -> (r: String)
    requires
        last <= elapsed,
    ensures
        r@ == last_time_text(elapsed, last),
{
    if last == 0 {
        return owned("(none seen)");
    }
    let mut r = owned("(last: ");
    let d = seconds_to_formatted(elapsed - last);
    push_str(&mut r, d.as_str());
    push_str(&mut r, " ago)");
    proof {
        assert(r@ =~= last_time_text(elapsed, last));
    }
    r
}

/// The seconds a session has run, counted as at least one.
pub open spec fn total_secs(elapsed: u64) -> nat {
    if elapsed == 0 {
        1
    } else {
        elapsed as nat
    }
}

/// The lines of the status screen, `elapsed` seconds into the session:
/// the run time, the generated and mutated resources with their rates per
/// second, the errors and accepted samples with the time since the last
/// one, the corpus size, and the hits of new coverage with the time since
/// the last one.
pub open spec fn status_text(st: FuzzingStats, elapsed: u64) -> Seq<Seq<char>> {
    let t = total_secs(elapsed);
    seq![
        "Running for "@ + formatted_duration(t) + " "@,
        "Generated: "@ + decimal(st.generated as nat) + " ("@ + decimal(st.generated as nat / t) + "/s)"@,
        "Mutated: "@ + decimal(st.mutated as nat) + " ("@ + decimal(st.mutated as nat / t) + "/s)"@,
        "Errors: "@ + decimal(st.errors as nat) + " "@ + last_time_text(elapsed, st.last_error),
        "Accepted: "@ + decimal(st.accepted as nat) + " "@ + last_time_text(elapsed, st.last_accepted),
        "Corpus Size: "@ + decimal(st.corpus_size as nat),
        "New Coverage hits: "@ + decimal(st.newcov as nat) + " "@ + last_time_text(elapsed, st.last_newcov),
    ]
}

/// `label`, a count, and what follows it.
fn counted_line(label: &str, n: usize, rest: &str) -> (r: String)
    ensures
        r@ == label@ + decimal(n as nat) + rest@,
{
    let mut r = owned(label);
    push_decimal(&mut r, n as u64);
    push_str(&mut r, rest);
    proof {
        assert(r@ =~= label@ + decimal(n as nat) + rest@);
    }
    r
}

/// `label`, a count and its rate per second over `total` seconds.
fn rate_line(label: &str, n: usize, total: u64) -> (r: String)
    requires
        total > 0,
    ensures
        r@ == label@ + decimal(n as nat) + " ("@ + decimal(n as nat / total as nat) + "/s)"@,
{
    let mut r = owned(label);
    push_decimal(&mut r, n as u64);
    push_str(&mut r, " (");
    push_decimal(&mut r, (n as u64) / total);
    push_str(&mut r, "/s)");
    proof {
        assert(r@ =~= label@ + decimal(n as nat) + " ("@ + decimal(n as nat / total as nat) + "/s)"@);
    }
    r
}

/// `label`, a count, and the time since the last such event.
fn last_line(label: &str, n: usize, elapsed: u64, last: u64) -> (r: String)
    requires
        last <= elapsed,
    ensures
        r@ == label@ + decimal(n as nat) + " "@ + last_time_text(elapsed, last),
{
    let t = format_last_time(elapsed, last);
    let mut r = counted_line(label, n, " ");
    push_str(&mut r, t.as_str());
    proof {
        assert(r@ =~= label@ + decimal(n as nat) + " "@ + last_time_text(elapsed, last));
    }
    r
}

/// The lines of the status screen (see [`status_text`]).
pub fn status_lines(stats: &FuzzingStats, elapsed: u64) -> (r: Vec<String>)
    requires
        stats.last_error <= elapsed,
        stats.last_accepted <= elapsed,
        stats.last_newcov <= elapsed,
    ensures
        r@.len() == 7,
        forall|i: int| 0 <= i < 7 ==> (#[trigger] r@[i])@ == status_text(*stats, elapsed)[i],
{
    let total: u64 = if elapsed == 0 { 1 } else { elapsed };
    let mut running = owned("Running for ");
    let runtime = seconds_to_formatted(total);
    push_str(&mut running, runtime.as_str());
    push_str(&mut running, " ");
    let mut r: Vec<String> = Vec::new();
    r.push(running);
    r.push(rate_line("Generated: ", stats.generated, total));
    r.push(rate_line("Mutated: ", stats.mutated, total));
    r.push(last_line("Errors: ", stats.errors, elapsed, stats.last_error));
    r.push(last_line("Accepted: ", stats.accepted, elapsed, stats.last_accepted));
    r.push(counted_line("Corpus Size: ", stats.corpus_size, ""));
    r.push(last_line("New Coverage hits: ", stats.newcov, elapsed, stats.last_newcov));
    proof {
        let st = status_text(*stats, elapsed);
        assert(total as nat == total_secs(elapsed));
        assert(r@[0]@ =~= st[0]);
        assert(r@[5]@ =~= st[5]) by {
            reveal_strlit("");
        }
    }
    r
}

} // verus!
