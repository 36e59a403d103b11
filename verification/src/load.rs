//! Checking a constraint configuration and narrowing a resource schema with
//! it, as the `generate`, `mutate` and `fuzz` modes do before they start.

use vstd::prelude::*;
use crate::conf::{Constraint, ConstraintConfig, FieldConfig, FieldRule};
use crate::constrain::{
    ConstrainError, ConstrainFailure, constrain_spec, constrained, covered, rules_compile,
};
use crate::paths::{normalize_path, normalized, segments};
use crate::pattern::{Pattern, regex_compiles};
use crate::schema::{K8sResourceSpec, Schema, check_schema, schema_wf};
use crate::text::{lemma_split_nonempty, owned, push_char, push_str, split, str_eq, to_lowercase, lowercase};

verus! {

/// The language of a constraint file.
#[derive(Debug, Clone, Copy, PartialEq, Eq, Structural)]
pub enum ConfigFormat {
    Yaml,
    Json,
}

/// Why a constraint configuration cannot be loaded.
#[derive(Debug)]
pub enum LoadError {
    /// The constraint file's path has no extension.
    NoExtension(String),
    /// The constraint file's extension is neither `yaml` nor `json`.
    UnsupportedFormat(String),
    /// The configuration's version is empty.
    EmptyVersion,
    /// The configuration's kind is empty.
    EmptyKind,
    /// A regular expression of the configuration does not compile.
    InvalidRegex(String),
    /// The resource schema is not sound (see `schema_wf`).
    MalformedSchema,
    /// The configuration cannot be applied to the schema.
    Constrain(ConstrainError),
    /// A rule's path names no field of the schema.
    UnknownPath(String),
}

/// The mathematical value of a [`LoadError`].
pub enum LoadFailure {
    NoExtension(Seq<char>),
    UnsupportedFormat(Seq<char>),
    EmptyVersion,
    EmptyKind,
    InvalidRegex(Seq<char>),
    MalformedSchema,
    Constrain(ConstrainFailure),
    UnknownPath(Seq<char>),
}

impl View for LoadError {
    type V = LoadFailure;

    open spec fn view(&self) -> LoadFailure {
        match self {
            LoadError::NoExtension(p) => LoadFailure::NoExtension(p@),
            LoadError::UnsupportedFormat(p) => LoadFailure::UnsupportedFormat(p@),
            LoadError::EmptyVersion => LoadFailure::EmptyVersion,
            LoadError::EmptyKind => LoadFailure::EmptyKind,
            LoadError::InvalidRegex(p) => LoadFailure::InvalidRegex(p@),
            LoadError::MalformedSchema => LoadFailure::MalformedSchema,
            LoadError::Constrain(e) => LoadFailure::Constrain(e@),
            LoadError::UnknownPath(p) => LoadFailure::UnknownPath(p@),
        }
    }
}

/// The language of the constraint file at `path`, told by the text after
/// its last dot.
pub open spec fn format_of(path: Seq<char>) -> Result<ConfigFormat, LoadFailure> {
    if !path.contains('.') {
        Err(LoadFailure::NoExtension(path))
    } else if segments(path).last() == "yaml"@ {
        Ok(ConfigFormat::Yaml)
    } else if segments(path).last() == "json"@ {
        Ok(ConfigFormat::Json)
    } else {
        Err(LoadFailure::UnsupportedFormat(path))
    }
}

/// The language of the constraint file at `path`.
pub fn config_format(path: &str) -> (r: Result<ConfigFormat, LoadError>)
    ensures
        match format_of(path@) {
            Ok(f) => r == Ok::<ConfigFormat, LoadError>(f),
            Err(e) => r matches Err(x) && x@ == e,
        },
{
    let has_dot = crate::text::contains(path, ".");
    proof {
        reveal_strlit(".");
        if has_dot {
            let w = choose|w: int| crate::text::occurs_at(path@, "."@, w);
            assert(path@.subrange(w, w + 1)[0] == '.');
            assert(path@[w] == '.');
        } else {
            assert forall|w: int| 0 <= w < path@.len() implies path@[w] != '.' by {
                if path@[w] == '.' {
                    assert(path@.subrange(w, w + 1) =~= "."@);
                    assert(crate::text::occurs_at(path@, "."@, w));
                }
            }
        }
    }
    if !has_dot {
        return Err(LoadError::NoExtension(owned(path)));
    }
    let parts = split(path, '.');
    proof {
        lemma_split_nonempty(path@, '.');
    }
    let last = parts.len() - 1;
    let ext = parts[last].as_str();
    proof {
        assert(parts.deep_view()[last as int] == ext@);
    }
    if str_eq(ext, "yaml") {
        Ok(ConfigFormat::Yaml)
    } else if str_eq(ext, "json") {
        Ok(ConfigFormat::Json)
    } else {
        Err(LoadError::UnsupportedFormat(owned(path)))
    }
}

/// The first pattern of the list that does not compile.
pub open spec fn first_bad_pattern(ps: Seq<Seq<char>>) -> Option<Seq<char>>
    decreases ps.len(),
{
    if ps.len() == 0 {
        None
    } else {
        match first_bad_pattern(ps.drop_last()) {
            Some(p) => Some(p),
            None => if regex_compiles(ps.last()) {
                None
            } else {
                Some(ps.last())
            },
        }
    }
}

/// The first value pattern, over the rules in order, that does not compile.
pub open spec fn first_bad_value_regex(fields: Seq<FieldRule>) -> Option<Seq<char>>
    decreases fields.len(),
{
    if fields.len() == 0 {
        None
    } else {
        match first_bad_value_regex(fields.drop_last()) {
            Some(p) => Some(p),
            None => match fields.last().regex_values {
                Some(rv) => first_bad_pattern(rv),
                None => None,
            },
        }
    }
}

/// The path of the first regular-expression rule whose path does not
/// compile.
pub open spec fn first_bad_path_regex(fields: Seq<FieldRule>) -> Option<Seq<char>>
    decreases fields.len(),
{
    if fields.len() == 0 {
        None
    } else {
        match first_bad_path_regex(fields.drop_last()) {
            Some(p) => Some(p),
            None => if fields.last().regex && !regex_compiles(fields.last().path) {
                Some(fields.last().path)
            } else {
                None
            },
        }
    }
}

/// A rule with its path normalized, unless the path is a regular expression.
pub open spec fn normalize_rule(f: FieldRule) -> FieldRule {
    if f.regex {
        f
    } else {
        FieldRule { path: normalized(f.path), ..f }
    }
}

/// The configuration checked and ready: version and kind are not empty,
/// every regular expression compiles, and plain paths are normalized.
pub open spec fn prepared(c: Constraint) -> Result<Constraint, LoadFailure> {
    if c.version.len() == 0 {
        Err(LoadFailure::EmptyVersion)
    } else if c.kind.len() == 0 {
        Err(LoadFailure::EmptyKind)
    } else {
        match first_bad_value_regex(c.fields) {
            Some(p) => Err(LoadFailure::InvalidRegex(p)),
            None => match first_bad_path_regex(c.fields) {
                Some(p) => Err(LoadFailure::InvalidRegex(p)),
                None => Ok(Constraint { fields: c.fields.map_values(|f: FieldRule| normalize_rule(f)), ..c }),
            },
        }
    }
}

/// With no bad path pattern, every regular-expression rule compiles.
proof fn lemma_no_bad_path(fields: Seq<FieldRule>)
    requires
        first_bad_path_regex(fields) is None,
    ensures
        rules_compile(fields),
    decreases fields.len(),
{
    if fields.len() > 0 {
        lemma_no_bad_path(fields.drop_last());
        assert forall|i: int| 0 <= i < fields.len() && (#[trigger] fields[i]).regex implies regex_compiles(
            fields[i].path,
        ) by {
            if i < fields.len() - 1 {
                assert(fields.drop_last()[i] == fields[i]);
            }
        }
    }
}

/// The first pattern of `ps` that does not compile.
fn find_bad_pattern(ps: &Vec<String>) -> (r: Option<String>)
    ensures
        match first_bad_pattern(crate::conf::str_seq(ps@)) {
            Some(p) => r matches Some(x) && x@ == p,
            None => r is None,
        },
{
    let ghost v = crate::conf::str_seq(ps@);
    let n = ps.len();
    let mut i: usize = 0;
    while i < n
        invariant
            n == ps@.len(),
            v == crate::conf::str_seq(ps@),
            i <= n,
            first_bad_pattern(v.take(i as int)) is None,
        decreases n - i,
    {
        proof {
            assert(v.take(i + 1).drop_last() =~= v.take(i as int));
            assert(v.take(i + 1).last() == ps@[i as int]@);
        }
        if Pattern::new(ps[i].as_str()).is_none() {
            proof {
                lemma_bad_pattern_stays(v, i + 1, n as int);
                assert(v.take(n as int) =~= v);
            }
            return Some(ps[i].clone());
        }
        i = i + 1;
    }
    proof {
        assert(v.take(n as int) =~= v);
    }
    None
}

/// Once a prefix holds a bad pattern, longer prefixes report the same one.
proof fn lemma_bad_pattern_stays(v: Seq<Seq<char>>, i: int, k: int)
    requires
        0 <= i <= k <= v.len(),
        first_bad_pattern(v.take(i)) is Some,
    ensures
        first_bad_pattern(v.take(k)) == first_bad_pattern(v.take(i)),
    decreases k - i,
{
    if k > i {
        lemma_bad_pattern_stays(v, i, k - 1);
        assert(v.take(k).drop_last() =~= v.take(k - 1));
    }
}

/// Checks a constraint configuration and normalizes its plain paths (see
/// [`prepared`]).
pub fn prepare_config(config: ConstraintConfig) -> (r: Result<ConstraintConfig, LoadError>)
    ensures
        match prepared(config@) {
            Ok(c) => r matches Ok(x) && x@ == c,
            Err(e) => r matches Err(x) && x@ == e,
        },
{
    if config.version.as_str().unicode_len() == 0 {
        return Err(LoadError::EmptyVersion);
    }
    if config.kind.as_str().unicode_len() == 0 {
        return Err(LoadError::EmptyKind);
    }
    let ghost fields = config@.fields;
    let n = config.fields.len();
    // the value patterns, rule by rule
    let mut i: usize = 0;
    while i < n
        invariant
            n == config.fields@.len(),
            fields == config@.fields,
            i <= n,
            config@.version.len() > 0,
            config@.kind.len() > 0,
            first_bad_value_regex(fields.take(i as int)) is None,
        decreases n - i,
    {
        proof {
            assert(fields.take(i + 1).drop_last() =~= fields.take(i as int));
            assert(fields.take(i + 1).last() == config.fields@[i as int]@);
        }
        match &config.fields[i].regex_values {
            Some(rv) => {
                match find_bad_pattern(rv) {
                    Some(p) => {
                        proof {
                            assert(fields.take(i + 1).last().regex_values == Some(crate::conf::str_seq(rv@)));
                            assert(first_bad_value_regex(fields.take(i + 1)) == Some(p@));
                            lemma_bad_value_stays(fields, i + 1, n as int);
                            assert(fields.take(n as int) =~= fields);
                        }
                        return Err(LoadError::InvalidRegex(p));
                    },
                    None => {},
                }
            },
            None => {},
        }
        i = i + 1;
    }
    proof {
        assert(fields.take(n as int) =~= fields);
    }
    // the path patterns, rule by rule
    let mut i: usize = 0;
    while i < n
        invariant
            n == config.fields@.len(),
            fields == config@.fields,
            i <= n,
            config@.version.len() > 0,
            config@.kind.len() > 0,
            first_bad_value_regex(fields) is None,
            first_bad_path_regex(fields.take(i as int)) is None,
        decreases n - i,
    {
        proof {
            assert(fields.take(i + 1).drop_last() =~= fields.take(i as int));
            assert(fields.take(i + 1).last() == config.fields@[i as int]@);
        }
        if config.fields[i].regex && Pattern::new(config.fields[i].path.as_str()).is_none() {
            proof {
                assert(first_bad_path_regex(fields.take(i + 1)) == Some(config.fields@[i as int].path@));
                lemma_bad_path_stays(fields, i + 1, n as int);
                assert(fields.take(n as int) =~= fields);
            }
            return Err(LoadError::InvalidRegex(config.fields[i].path.clone()));
        }
        i = i + 1;
    }
    proof {
        assert(fields.take(n as int) =~= fields);
    }
    // plain paths are normalized
    let ConstraintConfig { group, version, kind, fields: mut rest } = config;
    let mut out: Vec<FieldConfig> = Vec::new();
    let mut i: usize = 0;
    while i < n
        invariant
            n == fields.len(),
            i <= n,
            rest@.len() == n - i,
            forall|k: int| 0 <= k < rest@.len() ==> #[trigger] rest@[k]@ == fields[i + k],
            out@.len() == i,
            forall|k: int| 0 <= k < i ==> #[trigger] out@[k]@ == normalize_rule(fields[k]),
        decreases n - i,
    {
        let ghost before = rest@;
        let mut f = rest.remove(0);
        proof {
            assert(f@ == fields[i as int]);
            assert forall|k: int| 0 <= k < rest@.len() implies #[trigger] rest@[k]@ == fields[i + 1 + k] by {
                assert(rest@[k] == before[k + 1]);
            }
        }
        if !f.regex {
            let p = normalize_path(f.path.as_str());
            f.path = p;
        }
        out.push(f);
        i = i + 1;
    }
    let r = ConstraintConfig { group, version, kind, fields: out };
    proof {
        assert(r@.fields =~= fields.map_values(|f: FieldRule| normalize_rule(f)));
    }
    Ok(r)
}

/// Once a prefix of the rules holds a bad value pattern, longer prefixes
/// report the same one.
proof fn lemma_bad_value_stays(v: Seq<FieldRule>, i: int, k: int)
    requires
        0 <= i <= k <= v.len(),
        first_bad_value_regex(v.take(i)) is Some,
    ensures
        first_bad_value_regex(v.take(k)) == first_bad_value_regex(v.take(i)),
    decreases k - i,
{
    if k > i {
        lemma_bad_value_stays(v, i, k - 1);
        assert(v.take(k).drop_last() =~= v.take(k - 1));
    }
}

/// Once a prefix of the rules holds a bad path pattern, longer prefixes
/// report the same one.
proof fn lemma_bad_path_stays(v: Seq<FieldRule>, i: int, k: int)
    requires
        0 <= i <= k <= v.len(),
        first_bad_path_regex(v.take(i)) is Some,
    ensures
        first_bad_path_regex(v.take(k)) == first_bad_path_regex(v.take(i)),
    decreases k - i,
{
    if k > i {
        lemma_bad_path_stays(v, i, k - 1);
        assert(v.take(k).drop_last() =~= v.take(k - 1));
    }
}

/// `group.version.kind` of a configuration.
pub open spec fn gvk_text(c: Constraint) -> Seq<char> {
    c.group.push('.') + c.version.push('.') + c.kind
}

/// The root schema marked with the resource's group (none for the core
/// group, whose name is empty), version, kind and `group.version.kind`.
pub open spec fn annotated(root: Schema, c: Constraint) -> Schema {
    Schema {
        gvk: Some(gvk_text(c)),
        group: if c.group.len() == 0 {
            None
        } else {
            Some(c.group)
        },
        version: Some(c.version),
        kind: Some(c.kind),
        ..root
    }
}

/// The path of the resource's root.
pub open spec fn root_path() -> Seq<char> {
    seq!['$']
}

/// The path of the first rule, in order, that is not among `cov`.
pub open spec fn first_uncovered(fields: Seq<FieldRule>, cov: Set<Seq<char>>) -> Option<Seq<char>>
    decreases fields.len(),
{
    if fields.len() == 0 {
        None
    } else {
        match first_uncovered(fields.drop_last(), cov) {
            Some(p) => Some(p),
            None => if cov.contains(fields.last().path) {
                None
            } else {
                Some(fields.last().path)
            },
        }
    }
}

/// The narrowed schema of a resource: the configuration is checked, the
/// schema must be sound, the root is marked with the resource's identity
/// and narrowed from `$`, and every rule must have taken effect somewhere.
pub open spec fn loaded(c: Constraint, root: Schema) -> Result<Schema, LoadFailure> {
    match prepared(c) {
        Err(e) => Err(e),
        Ok(p) => if !schema_wf(root) {
            Err(LoadFailure::MalformedSchema)
        } else {
            let r = annotated(root, p);
            match constrained(r, root_path(), p.fields) {
                Err(e) => Err(LoadFailure::Constrain(e)),
                Ok(t) => match first_uncovered(p.fields, covered(r, root_path(), p.fields).to_set()) {
                    Some(q) => Err(LoadFailure::UnknownPath(q)),
                    None => Ok(t),
                },
            }
        },
    }
}

/// Whether `v` holds `s`.
fn holds_str(v: &Vec<String>, s: &str) -> (b: bool)
    ensures
        b == v.deep_view().contains(s@),
{
    let n = v.len();
    let mut i: usize = 0;
    while i < n
        invariant
            n == v@.len(),
            i <= n,
            forall|k: int| 0 <= k < i ==> v.deep_view()[k] != s@,
        decreases n - i,
    {
        if str_eq(v[i].as_str(), s) {
            proof {
                assert(v.deep_view()[i as int] == s@);
            }
            return true;
        }
        i = i + 1;
    }
    false
}

/// Checks the configuration, narrows the resource schema with it, and
/// checks that every rule took effect (see [`loaded`]).
pub fn constrain_loaded(config: ConstraintConfig, spec: K8sResourceSpec) -> (r: Result<K8sResourceSpec, LoadError>)
    ensures
        match loaded(config@, spec@) {
            Ok(t) => r matches Ok(x) && x@ == t,
            Err(e) => r matches Err(x) && x@ == e,
        },
{
    let ghost cv = config@;
    let c = match prepare_config(config) {
        Ok(c) => c,
        Err(e) => {
            return Err(e);
        },
    };
    if !check_schema(&spec) {
        return Err(LoadError::MalformedSchema);
    }
    proof {
        lemma_no_bad_path(cv.fields);
        assert forall|i: int| 0 <= i < c@.fields.len() && (#[trigger] c@.fields[i]).regex implies regex_compiles(
            c@.fields[i].path,
        ) by {
            assert(c@.fields[i] == normalize_rule(cv.fields[i]));
        }
    }
    let ghost root0 = spec@;
    let mut tree = spec;
    let mut gvk = String::new();
    push_str(&mut gvk, c.group.as_str());
    push_char(&mut gvk, '.');
    push_str(&mut gvk, c.version.as_str());
    push_char(&mut gvk, '.');
    push_str(&mut gvk, c.kind.as_str());
    tree.gvk = Some(gvk);
    tree.group = if c.group.as_str().unicode_len() == 0 {
        None
    } else {
        Some(c.group.clone())
    };
    tree.version = Some(c.version.clone());
    tree.kind = Some(c.kind.clone());
    proof {
        crate::schema::lemma_view_fields(tree);
        assert(tree@ == annotated(root0, c@));
    }
    let mut covered_paths: Vec<String> = Vec::new();
    let root = "$";
    proof {
        reveal_strlit("$");
        assert(root@ == root_path());
    }
    let ghost r0 = tree@;
    match constrain_spec(&c, &mut tree, root, &mut covered_paths) {
        Err(e) => {
            return Err(LoadError::Constrain(e));
        },
        Ok(()) => {},
    }
    let ghost cov = covered(r0, root_path(), c@.fields).to_set();
    proof {
        assert(covered_paths.deep_view() =~= covered(r0, root_path(), c@.fields));
    }
    let n = c.fields.len();
    let mut i: usize = 0;
    while i < n
        invariant
            n == c@.fields.len(),
            i <= n,
            covered_paths.deep_view().to_set() == cov,
            first_uncovered(c@.fields.take(i as int), cov) is None,
            prepared(cv) == Ok::<Constraint, LoadFailure>(c@),
            schema_wf(root0),
            r0 == annotated(root0, c@),
            constrained(r0, root_path(), c@.fields) == Ok::<Schema, ConstrainFailure>(tree@),
            cv == config@,
            root0 == spec@,
            cov == covered(r0, root_path(), c@.fields).to_set(),
        decreases n - i,
    {
        proof {
            assert(c@.fields.take(i + 1).drop_last() =~= c@.fields.take(i as int));
            assert(c@.fields.take(i + 1).last() == c.fields@[i as int]@);
        }
        let present = holds_str(&covered_paths, c.fields[i].path.as_str());
        if !present {
            proof {
                assert(!cov.contains(c.fields@[i as int].path@));
                assert(first_uncovered(c@.fields.take(i + 1), cov) == Some(c.fields@[i as int].path@));
                lemma_uncovered_stays(c@.fields, cov, i + 1, n as int);
                assert(c@.fields.take(n as int) =~= c@.fields);
                assert(first_uncovered(c@.fields, cov) == Some(c.fields@[i as int].path@));
                assert(loaded(cv, root0) == Err::<Schema, LoadFailure>(LoadFailure::UnknownPath(c.fields@[i as int].path@)));
            }
            return Err(LoadError::UnknownPath(c.fields[i].path.clone()));
        }
        i = i + 1;
    }
    proof {
        assert(c@.fields.take(n as int) =~= c@.fields);
    }
    Ok(tree)
}

/// Once a prefix of the rules holds an uncovered path, longer prefixes
/// report the same one.
proof fn lemma_uncovered_stays(v: Seq<FieldRule>, cov: Set<Seq<char>>, i: int, k: int)
    requires
        0 <= i <= k <= v.len(),
        first_uncovered(v.take(i), cov) is Some,
    ensures
        first_uncovered(v.take(k), cov) == first_uncovered(v.take(i), cov),
    decreases k - i,
{
    if k > i {
        lemma_uncovered_stays(v, cov, i, k - 1);
        assert(v.take(k).drop_last() =~= v.take(k - 1));
    }
}

/// The position of the last `.` in `t`, or -1 when there is none.
pub open spec fn last_dot(t: Seq<char>) -> int
    decreases t.len(),
{
    if t.len() == 0 {
        -1
    } else if t.last() == '.' {
        t.len() - 1
    } else {
        last_dot(t.drop_last())
    }
}

/// The name of the schema file of a kind: the kind in lower case, taken as
/// a file name whose extension, if it has one (text after a last `.` that
/// does not begin the name), is replaced by `json`, and that gets the
/// extension `json` otherwise. Nothing for a name that is not a plain file
/// name: one that is empty, is `.` or `..`, or holds a `/`.
pub open spec fn schema_name(kind: Seq<char>) -> Option<Seq<char>> {
    let n = lowercase(kind);
    if n.len() == 0 || n == "."@ || n == ".."@ || n.contains('/') {
        None
    } else if last_dot(n) > 0 {
        Some(n.take(last_dot(n)) + ".json"@)
    } else {
        Some(n + ".json"@)
    }
}

/// The schema file name of a kind (see [`schema_name`]).
pub fn schema_file_name(kind: &str) -> (r: Option<String>)
    ensures
        match r {
            Some(t) => schema_name(kind@) == Some(t@),
            None => schema_name(kind@) is None,
        },
{
    proof {
        reveal_strlit(".");
        reveal_strlit("..");
        reveal_strlit(".json");
    }
    let lower = to_lowercase(kind);
    let l = lower.as_str();
    let n = l.unicode_len();
    let mut dot: usize = 0;
    let mut found = false;
    let mut slash = false;
    let mut i: usize = 0;
    while i < n
        invariant
            n == l@.len(),
            l@ == lowercase(kind@),
            i <= n,
            last_dot(l@.take(i as int)) == if found { dot as int } else { -1 },
            found ==> dot < i,
            slash == l@.take(i as int).contains('/'),
        decreases n - i,
    {
        let c = l.get_char(i);
        proof {
            assert(l@.take(i + 1).drop_last() =~= l@.take(i as int));
            assert(l@.take(i + 1).last() == c);
            if l@.take(i as int).contains('/') {
                let j = choose|j: int| 0 <= j < i && #[trigger] l@.take(i as int)[j] == '/';
                assert(l@.take(i + 1)[j] == '/');
            }
            if l@.take(i + 1).contains('/') && c != '/' {
                let j = choose|j: int| 0 <= j < i + 1 && #[trigger] l@.take(i + 1)[j] == '/';
                assert(l@.take(i as int)[j] == '/');
            }
            if c == '/' {
                assert(l@.take(i + 1)[i as int] == '/');
            }
        }
        if c == '.' {
            dot = i;
            found = true;
        }
        if c == '/' {
            slash = true;
        }
        i = i + 1;
    }
    proof {
        assert(l@.take(n as int) =~= l@);
    }
    if n == 0 || slash || str_eq(l, ".") || str_eq(l, "..") {
        return None;
    }
    let mut r = String::new();
    if found && dot > 0 {
        let mut k: usize = 0;
        let stop = dot;
        while k < stop
            invariant
                stop <= n,
                n == l@.len(),
                k <= stop,
                r@ == l@.take(k as int),
            decreases stop - k,
        {
            push_char(&mut r, l.get_char(k));
            proof {
                assert(l@.take(k + 1) =~= l@.take(k as int).push(l@[k as int]));
            }
            k = k + 1;
        }
    } else {
        push_str(&mut r, l);
    }
    push_str(&mut r, ".json");
    Some(r)
}

/// With no rule left out, every rule's path is among those taken into
/// account.
proof fn lemma_none_uncovered(fields: Seq<FieldRule>, cov: Set<Seq<char>>, i: int)
    requires
        first_uncovered(fields, cov) is None,
        0 <= i < fields.len(),
    ensures
        cov.contains(fields[i].path),
    decreases fields.len(),
{
    if i < fields.len() - 1 {
        assert(fields.drop_last()[i] == fields[i]);
        lemma_none_uncovered(fields.drop_last(), cov, i);
    }
}

/// A configuration loads only when each of its rules takes effect: it
/// targets a node the narrowing visits, or removes a child of one.
pub proof fn law_every_rule_takes_effect(c: Constraint, root: Schema, i: int)
    requires
        loaded(c, root) is Ok,
        0 <= i < c.fields.len(),
    ensures
        ({
            let p = prepared(c)->Ok_0;
            covered(annotated(root, p), root_path(), p.fields).contains(p.fields[i].path)
        }),
{
    let p = prepared(c)->Ok_0;
    assert(p.fields.len() == c.fields.len());
    lemma_none_uncovered(p.fields, covered(annotated(root, p), root_path(), p.fields).to_set(), i);
}

} // verus!
