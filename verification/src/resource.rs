//! Group, version and kind: as a resource states them, as constraints are
//! kept by them, and as they name directories and API calls.

use vstd::prelude::*;
use crate::json::{Json, JsonValue, field, get};
use crate::schema::{K8sResourceSpec, lemma_view_fields};
use crate::text::{lemma_split_nonempty, owned, push_char, push_str, split, split_seq, str_eq};

verus! {

/// Why a resource's group, version and kind cannot be read.
#[derive(Debug, Clone, Copy, PartialEq, Eq, Structural)]
pub enum GvkError {
    /// The resource has no `kind`.
    NoKind,
    /// Its `kind` is not a string.
    KindNotString,
    /// The resource has no `apiVersion`.
    NoApiVersion,
    /// Its `apiVersion` is not a string.
    ApiVersionNotString,
    /// Its `apiVersion` has more than one `/`.
    ApiVersionMalformed,
}

/// The group and version an `apiVersion` names: `group/version`, or the
/// version alone for the core group (whose name is empty).
pub open spec fn group_version(api: Seq<char>) -> Option<(Seq<char>, Seq<char>)> {
    let parts = split_seq(api, '/');
    if parts.len() == 1 {
        Some((Seq::<char>::empty(), parts[0]))
    } else if parts.len() == 2 {
        Some((parts[0], parts[1]))
    } else {
        None
    }
}

/// `group.version.kind`.
pub open spec fn gvk_of(group: Seq<char>, version: Seq<char>, kind: Seq<char>) -> Seq<char> {
    group.push('.') + version.push('.') + kind
}

/// The `group.version.kind` a resource states, read from its `kind` and
/// then its `apiVersion`.
pub open spec fn stated_gvk(v: Json) -> Result<Seq<char>, GvkError> {
    match field(v, "kind"@) {
        None => Err(GvkError::NoKind),
        Some(Json::Str(kind)) => match field(v, "apiVersion"@) {
            None => Err(GvkError::NoApiVersion),
            Some(Json::Str(api)) => match group_version(api) {
                Some((group, version)) => Ok(gvk_of(group, version, kind)),
                None => Err(GvkError::ApiVersionMalformed),
            },
            Some(_) => Err(GvkError::ApiVersionNotString),
        },
        Some(_) => Err(GvkError::KindNotString),
    }
}

/// The `group.version.kind` a resource states (see [`stated_gvk`]).
pub fn resource_gvk(resource: &JsonValue) -> (r: Result<String, GvkError>)
    ensures
        match stated_gvk(resource@) {
            Ok(t) => r matches Ok(x) && x@ == t,
            Err(e) => r == Err::<String, GvkError>(e),
        },
{
    proof {
        reveal_strlit("kind");
        reveal_strlit("apiVersion");
    }
    let kind = match get(resource, "kind") {
        None => {
            return Err(GvkError::NoKind);
        },
        Some(JsonValue::Str(k)) => k,
        Some(_) => {
            return Err(GvkError::KindNotString);
        },
    };
    let api = match get(resource, "apiVersion") {
        None => {
            return Err(GvkError::NoApiVersion);
        },
        Some(JsonValue::Str(a)) => a,
        Some(_) => {
            return Err(GvkError::ApiVersionNotString);
        },
    };
    let parts = split(api.as_str(), '/');
    proof {
        lemma_split_nonempty(api@, '/');
        assert(parts@.len() == split_seq(api@, '/').len());
    }
    let (group, version) = if parts.len() == 1 {
        proof {
            assert(parts@[0]@ == split_seq(api@, '/')[0]);
        }
        (String::new(), parts[0].clone())
    } else if parts.len() == 2 {
        proof {
            assert(parts@[0]@ == split_seq(api@, '/')[0]);
            assert(parts@[1]@ == split_seq(api@, '/')[1]);
        }
        (parts[0].clone(), parts[1].clone())
    } else {
        return Err(GvkError::ApiVersionMalformed);
    };
    let mut r = group;
    push_char(&mut r, '.');
    push_str(&mut r, version.as_str());
    push_char(&mut r, '.');
    push_str(&mut r, kind.as_str());
    proof {
        let (g, v) = group_version(api@)->0;
        assert(r@ =~= gvk_of(g, v, kind@));
    }
    Ok(r)
}

/// The directory name for resources of a `group.version.kind`: without
/// any `/`, and without a leading `.` (that of the core group).
pub open spec fn gvk_dir(gvk: Seq<char>) -> Seq<char> {
    let t = gvk.filter(|c: char| c != '/');
    if t.len() > 0 && t[0] == '.' {
        t.drop_first()
    } else {
        t
    }
}

/// The directory name for resources of a `group.version.kind` (see
/// [`gvk_dir`]).
pub fn gvk_dir_name(gvk: &str) -> (r: String)
    ensures
        r@ == gvk_dir(gvk@),
{
    let n = gvk.unicode_len();
    let mut t = String::new();
    let mut i: usize = 0;
    while i < n
        invariant
            n == gvk@.len(),
            i <= n,
            t@ == gvk@.subrange(0, i as int).filter(|c: char| c != '/'),
        decreases n - i,
    {
        let c = gvk.get_char(i);
        proof {
            let s = gvk@.subrange(0, i as int);
            assert(gvk@.subrange(0, i + 1) =~= s.push(c));
            reveal(Seq::filter);
            assert(s.push(c).drop_last() =~= s);
        }
        if c != '/' {
            push_char(&mut t, c);
        }
        i = i + 1;
    }
    proof {
        assert(gvk@.subrange(0, n as int) =~= gvk@);
    }
    let m = t.unicode_len();
    if m > 0 && t.get_char(0) == '.' {
        let r = owned(t.substring_char(1, m));
        proof {
            assert(r@ =~= t@.drop_first());
        }
        return r;
    }
    t
}

/// The first three dot-separated parts of a `group.version.kind`, which
/// name the group, version and kind the API is called with.
pub fn gvk_parts(gvk: &str) -> (r: (String, String, String))
    requires
        split_seq(gvk@, '.').len() >= 3,
    ensures
        r.0@ == split_seq(gvk@, '.')[0],
        r.1@ == split_seq(gvk@, '.')[1],
        r.2@ == split_seq(gvk@, '.')[2],
{
    let parts = split(gvk, '.');
    proof {
        assert(parts@.len() == split_seq(gvk@, '.').len());
        assert(parts@[0]@ == split_seq(gvk@, '.')[0]);
        assert(parts@[1]@ == split_seq(gvk@, '.')[1]);
        assert(parts@[2]@ == split_seq(gvk@, '.')[2]);
    }
    (parts[0].clone(), parts[1].clone(), parts[2].clone())
}

/// The position of the constraint for `gvk`, if one is kept.
pub fn find_gvk(specs: &Vec<K8sResourceSpec>, gvk: &str) -> (r: Option<usize>)
    ensures
        match r {
            Some(i) => i < specs@.len() && specs@[i as int]@.gvk == Some(gvk@) && forall|k: int|
                0 <= k < i ==> specs@[k]@.gvk != Some(gvk@),
            None => forall|k: int| 0 <= k < specs@.len() ==> specs@[k]@.gvk != Some(gvk@),
        },
{
    let n = specs.len();
    let mut i: usize = 0;
    while i < n
        invariant
            n == specs@.len(),
            i <= n,
            forall|k: int| 0 <= k < i ==> specs@[k]@.gvk != Some(gvk@),
        decreases n - i,
    {
        proof {
            lemma_view_fields(specs@[i as int]);
        }
        let hit = match &specs[i].gvk {
            Some(g) => str_eq(g.as_str(), gvk),
            None => false,
        };
        if hit {
            return Some(i);
        }
        i = i + 1;
    }
    None
}

/// The `group.version.kind` a loaded constraint carries.
fn gvk_text(spec: &K8sResourceSpec) -> (r: String)
    requires
        spec@.gvk is Some,
    ensures
        Some(r@) == spec@.gvk,
{
    proof {
        lemma_view_fields(*spec);
    }
    match &spec.gvk {
        Some(g) => owned(g.as_str()),
        None => String::new(),
    }
}

/// Keeps a loaded constraint, refusing a second one for the same
/// `group.version.kind`: the error names it.
pub fn add_constraint(specs: &mut Vec<K8sResourceSpec>, spec: K8sResourceSpec) -> (r: Result<(), String>)
    requires
        spec@.gvk is Some,
    ensures
        match r {
            Ok(()) => {
                &&& forall|k: int| 0 <= k < old(specs)@.len() ==> old(specs)@[k]@.gvk != spec@.gvk
                &&& final(specs)@ == old(specs)@.push(spec)
            },
            Err(g) => {
                &&& Some(g@) == spec@.gvk
                &&& exists|k: int| 0 <= k < old(specs)@.len() && old(specs)@[k]@.gvk == spec@.gvk
                &&& final(specs)@ == old(specs)@
            },
        },
{
    let gvk = gvk_text(&spec);
    match find_gvk(specs, gvk.as_str()) {
        Some(_) => Err(gvk),
        None => {
            specs.push(spec);
            Ok(())
        },
    }
}

/// Keeps a loaded constraint, in place of the one kept for the same
/// `group.version.kind`, if there is one.
pub fn put_constraint(specs: &mut Vec<K8sResourceSpec>, spec: K8sResourceSpec)
    requires
        spec@.gvk is Some,
    ensures
        (exists|k: int| 0 <= k < old(specs)@.len() && old(specs)@[k]@.gvk == spec@.gvk) ==> exists|k: int|
            0 <= k < old(specs)@.len() && old(specs)@[k]@.gvk == spec@.gvk && final(specs)@ == old(
                specs,
            )@.update(k, spec),
        (forall|k: int| 0 <= k < old(specs)@.len() ==> old(specs)@[k]@.gvk != spec@.gvk) ==> final(specs)@
            == old(specs)@.push(spec),
{
    let gvk = gvk_text(&spec);
    match find_gvk(specs, gvk.as_str()) {
        Some(i) => {
            specs.set(i, spec);
        },
        None => {
            specs.push(spec);
        },
    }
}

} // verus!
