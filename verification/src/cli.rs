//! The command line: its arguments, and the checks on the paths it names.

use vstd::prelude::*;
use crate::text::{owned, push_str, split, split_seq};

verus! {

/// What the program is asked to do.
#[derive(Debug)]
pub enum Action {
    /// Generate manifests with constraints.
    Generate(Generate),
    /// Mutate existing manifests with constraints.
    Mutate(Mutate),
    /// Fuzz the admission controller chain with constraints.
    Fuzz(Fuzz),
    /// Get the JSON schemas from the Kubernetes API.
    GetSchemas(GetSchemas),
}

/// The program's arguments: an action, and the seed to use, if one is
/// given.
#[derive(Debug)]
pub struct Arguments {
    pub action: Action,
    pub seed: Option<u64>,
}

/// Generation: the constraint files (one comma-separated list), the
/// schema directory, the output directory, and how many manifests to
/// generate per resource (10 unless given).
#[derive(Debug)]
pub struct Generate {
    pub constraints: Vec<String>,
    pub schemadir: String,
    pub out: String,
    pub num: u32,
}

/// Fuzzing: an optional kubeconfig, the constraint files, the schema
/// directory, the namespace (`default` unless given), the fuzzing
/// directory, the request timeout in seconds (5), the bound of the corpus
/// in memory (100), how many accepted and how many error-causing samples
/// may be saved (50 each), how many iterations to run (0, no limit), how
/// many new resources to generate per iteration and constraint (20), and
/// whether the status screen is off.
#[derive(Debug)]
pub struct Fuzz {
    pub kubeconfig: Option<String>,
    pub constraints: Vec<String>,
    pub schemadir: String,
    pub namespace: String,
    pub fuzzdir: String,
    pub timeout: u32,
    pub max_corpus_count: usize,
    pub max_accepted: usize,
    pub max_error: usize,
    pub iterations: usize,
    pub generations: usize,
    pub notui: bool,
}

/// Mutation: the resource files (one comma-separated list), the schema
/// directory, the output directory, how many mutated resources to write
/// per resource (10), the constraint files, and how many samples may be
/// saved (50).
#[derive(Debug)]
pub struct Mutate {
    pub resources: Vec<String>,
    pub schemadir: String,
    pub out: String,
    pub num: u32,
    pub constraints: Vec<String>,
    pub max_samples: usize,
}

/// Schema download: the OpenAPI endpoint, and the directory in which the
/// `schemas` directory is made (`.` unless given).
#[derive(Debug)]
pub struct GetSchemas {
    pub endpoint: String,
    pub out: String,
}

/// The answer to a path that should name a file, given whether it does.
pub fn file_verdict(is_a_file: bool) -> (r: Result<(), String>)
    ensures
        r is Ok <==> is_a_file,
        r matches Err(m) ==> m@ == "Specified path is not a file or does not exist"@,
{
    if is_a_file {
        Ok(())
    } else {
        Err(owned("Specified path is not a file or does not exist"))
    }
}

/// The answer to a path that should name a directory, given whether it
/// does: the path itself when it does.
pub fn dir_verdict(value: &str, is_a_dir: bool) -> (r: Result<String, String>)
    ensures
        is_a_dir ==> (r matches Ok(p) && p@ == value@),
        !is_a_dir ==> (r matches Err(m) && m@ == "Specified path is not a directory or does not exist"@),
{
    if is_a_dir {
        Ok(owned(value))
    } else {
        Err(owned("Specified path is not a directory or does not exist"))
    }
}

/// The position of the first `false`, or the length when there is none.
pub open spec fn first_missing(found: Seq<bool>) -> int
    decreases found.len(),
{
    if found.len() == 0 {
        0
    } else if !found[0] {
        0
    } else {
        1 + first_missing(found.drop_first())
    }
}

/// The paths of a comma-separated list.
pub fn list_paths(arr: &str) -> (r: Vec<String>)
    ensures
        r.deep_view() == split_seq(arr@, ','),
{
    split(arr, ',')
}

/// The answer to a comma-separated list of paths that should each name a
/// file, given for each path of the list whether it does: the list itself
/// when all do, else an error that names the first that does not.
pub fn all_files_verdict(arr: &str, found: &Vec<bool>) -> (r: Result<String, String>)
    requires
        found@.len() == split_seq(arr@, ',').len(),
    ensures
        first_missing(found@) == found@.len() ==> (r matches Ok(p) && p@ == arr@),
        first_missing(found@) < found@.len() ==> (r matches Err(m) && m@ == "Specified path '"@
            + split_seq(arr@, ',')[first_missing(found@)] + "' is not a file or does not exist"@),
{
    let paths = list_paths(arr);
    let n = found.len();
    let mut i: usize = 0;
    while i < n
        invariant
            n == found@.len(),
            paths.deep_view() == split_seq(arr@, ','),
            paths@.len() == n,
            i <= n,
            forall|k: int| 0 <= k < i ==> found@[k],
        decreases n - i,
    {
        if !found[i] {
            let mut m = owned("Specified path '");
            push_str(&mut m, paths[i].as_str());
            push_str(&mut m, "' is not a file or does not exist");
            proof {
                lemma_first_missing(found@, i as int);
                assert(paths.deep_view()[i as int] == paths@[i as int]@);
                assert(m@ =~= "Specified path '"@ + split_seq(arr@, ',')[i as int]
                    + "' is not a file or does not exist"@);
            }
            return Err(m);
        }
        i = i + 1;
    }
    proof {
        lemma_first_missing(found@, n as int);
    }
    Ok(owned(arr))
}

/// The first missing position is `i` when all before it are there and `i`
/// is either the end or missing.
proof fn lemma_first_missing(found: Seq<bool>, i: int)
    requires
        0 <= i <= found.len(),
        forall|k: int| 0 <= k < i ==> found[k],
        i == found.len() || !found[i],
    ensures
        first_missing(found) == i,
    decreases i,
{
    if i > 0 {
        lemma_first_missing(found.drop_first(), i - 1);
    }
}

/// The filter that quietens the API client's own logging: added to the one
/// set, or after `info` when none is.
pub open spec fn log_filter_text(current: Option<Seq<char>>) -> Seq<char> {
    match current {
        Some(c) => c + ",kube_client=off,tower=off,hyper=off"@,
        None => "info,kube_client=off,tower=off,hyper=off"@,
    }
}

/// The logging filter (see [`log_filter_text`]).
pub fn log_filter(current: Option<&str>) -> (r: String)
    ensures
        r@ == log_filter_text(
            match current {
                Some(c) => Some(c@),
                None => None,
            },
        ),
{
    match current {
        Some(c) => {
            let mut r = owned(c);
            push_str(&mut r, ",kube_client=off,tower=off,hyper=off");
            r
        },
        None => owned("info,kube_client=off,tower=off,hyper=off"),
    }
}

} // verus!
