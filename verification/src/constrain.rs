//! Narrowing a resource schema down to what a constraint configuration
//! allows, and applying the configuration's values, bounds and required
//! fields to it.

use vstd::prelude::*;
use crate::conf::{ConstraintConfig, FieldConfig, FieldRule, ValuesMode};
use crate::json::JsonValue;
use crate::paths::{allowed, child_path, join_child, path_allowed};
use crate::pattern::{Pattern, regex_compiles, regex_match};
use crate::schema::{
    K8sResourceSpec, names, Schema, children, is_array, is_leaf, iter_all_children, leaf_paths,
    lemma_owner, lemma_view_fields, owner_node, prop_views, schema_wf,
};
use crate::conf::str_seq;
use crate::text::{owned, str_eq};

verus! {

/// What becomes of a child field of the current node.
#[derive(Debug, Clone, Copy, PartialEq, Eq, Structural)]
pub enum ChildAction {
    /// The field may be generated.
    Allowed,
    /// The field is always generated.
    Required,
    /// The field is removed from the schema.
    Forbidden,
}

/// Every rule whose path is a regular expression compiles.
pub open spec fn rules_compile(rules: Seq<FieldRule>) -> bool {
    forall|i: int| 0 <= i < rules.len() && (#[trigger] rules[i]).regex ==> regex_compiles(rules[i].path)
}

/// Whether rule `r` lets the child at `cpath` be generated. A plain rule
/// does when its path and the child's path lie on one line of the tree; a
/// regular-expression rule does when it matches a leaf path (from
/// `subpaths`) that lies on such a line with the child's path.
pub open spec fn rule_allows(r: FieldRule, subpaths: Seq<Seq<char>>, cpath: Seq<char>) -> bool {
    if r.regex {
        exists|j: int|
            0 <= j < subpaths.len() && regex_match(r.path, #[trigger] subpaths[j]) && allowed(
                cpath,
                subpaths[j],
            )
    } else {
        allowed(cpath, r.path)
    }
}

/// Whether one of the first `n` rules that do not remove lets the child be
/// generated, and (when `need_required`) also marks it required.
pub open spec fn some_grant(
    rules: Seq<FieldRule>,
    n: int,
    subpaths: Seq<Seq<char>>,
    cpath: Seq<char>,
    need_required: bool,
) -> bool {
    exists|i: int|
        0 <= i < n && !(#[trigger] rules[i]).remove && (need_required ==> rules[i].required)
            && rule_allows(rules[i], subpaths, cpath)
}

/// The action that the first `n` rules that do not remove give a child:
/// required if one of them allows it and requires it, allowed if one allows
/// it, forbidden otherwise.
pub open spec fn granted_upto(
    rules: Seq<FieldRule>,
    n: int,
    subpaths: Seq<Seq<char>>,
    cpath: Seq<char>,
) -> ChildAction {
    if some_grant(rules, n, subpaths, cpath, true) {
        ChildAction::Required
    } else if some_grant(rules, n, subpaths, cpath, false) {
        ChildAction::Allowed
    } else {
        ChildAction::Forbidden
    }
}

/// The action that all rules that do not remove give a child.
pub open spec fn granted(rules: Seq<FieldRule>, subpaths: Seq<Seq<char>>, cpath: Seq<char>) -> ChildAction {
    granted_upto(rules, rules.len() as int, subpaths, cpath)
}

/// Whether `r` is a removing rule that names the child at `cpath`: by equal
/// path, or for a regular-expression rule by a match.
pub open spec fn rule_removes(r: FieldRule, cpath: Seq<char>) -> bool {
    r.remove && if r.regex {
        regex_match(r.path, cpath)
    } else {
        r.path == cpath
    }
}

/// Rule `i` is the first removing rule that names the child.
pub open spec fn first_remover(rules: Seq<FieldRule>, cpath: Seq<char>, i: int) -> bool {
    &&& 0 <= i < rules.len()
    &&& rule_removes(rules[i], cpath)
    &&& forall|k: int| 0 <= k < i ==> !rule_removes(#[trigger] rules[k], cpath)
}

/// The final action for a child: a removing rule forbids a child that the
/// other rules would keep; otherwise the granted action stands.
pub open spec fn child_status(rules: Seq<FieldRule>, subpaths: Seq<Seq<char>>, cpath: Seq<char>) -> ChildAction {
    if granted(rules, subpaths, cpath) != ChildAction::Forbidden && exists|i: int|
        0 <= i < rules.len() && rule_removes(#[trigger] rules[i], cpath) {
        ChildAction::Forbidden
    } else {
        granted(rules, subpaths, cpath)
    }
}

/// The path recorded for the child at `cpath`: that of the first removing
/// rule that names it, when the other rules keep it; nothing otherwise.
pub open spec fn removal_entry(rules: Seq<FieldRule>, subpaths: Seq<Seq<char>>, cpath: Seq<char>) -> Seq<Seq<char>> {
    if granted(rules, subpaths, cpath) != ChildAction::Forbidden && exists|i: int| first_remover(rules, cpath, i) {
        seq![rules[choose|i: int| first_remover(rules, cpath, i)].path]
    } else {
        Seq::empty()
    }
}

/// The paths of the removing rules that take effect on the first `n`
/// children of the node at `ppath`, in the order of the children (see
/// [`removal_entry`]).
pub open spec fn removal_covered_upto(
    rules: Seq<FieldRule>,
    ppath: Seq<char>,
    node: Schema,
    n: int,
) -> Seq<Seq<char>>
    decreases n,
{
    if n <= 0 {
        Seq::empty()
    } else {
        removal_covered_upto(rules, ppath, node, n - 1) + removal_entry(
            rules,
            leaf_paths(ppath, node),
            child_path(ppath, children(node)[n - 1].0),
        )
    }
}

/// The paths of the removing rules that take effect on the children of the
/// node at `ppath`, in the order of the children.
pub open spec fn removal_covered(rules: Seq<FieldRule>, ppath: Seq<char>, node: Schema) -> Seq<Seq<char>> {
    removal_covered_upto(rules, ppath, node, children(node).len() as int)
}

/// Whether rule `r` lets the child at `cpath` be generated.
fn rule_allows_exec(r: &FieldConfig, subpaths: &Vec<String>, cpath: &str) -> (b: bool)
    requires
        r@.regex ==> regex_compiles(r@.path),
    ensures
        b == rule_allows(r@, subpaths.deep_view(), cpath@),
{
    if !r.regex {
        return path_allowed(cpath, r.path.as_str());
    }
    let pat = Pattern::new(r.path.as_str());
    let pat = match pat {
        Some(p) => p,
        None => {
            return false;
        },
    };
    let n = subpaths.len();
    let mut j: usize = 0;
    while j < n
        invariant
            n == subpaths@.len(),
            j <= n,
            r@.regex,
            pat.source() == r@.path,
            forall|k: int|
                0 <= k < j ==> !(regex_match(r@.path, #[trigger] subpaths.deep_view()[k]) && allowed(
                    cpath@,
                    subpaths.deep_view()[k],
                )),
        decreases n - j,
    {
        if pat.is_match(subpaths[j].as_str()) && path_allowed(cpath, subpaths[j].as_str()) {
            proof {
                assert(subpaths.deep_view()[j as int] == subpaths@[j as int]@);
            }
            return true;
        }
        j = j + 1;
    }
    false
}

/// Whether `r` is a removing rule that names the child at `cpath`.
fn rule_removes_exec(r: &FieldConfig, cpath: &str) -> (b: bool)
    requires
        r@.regex ==> regex_compiles(r@.path),
    ensures
        b == rule_removes(r@, cpath@),
{
    if !r.remove {
        return false;
    }
    if r.regex {
        match Pattern::new(r.path.as_str()) {
            Some(p) => p.is_match(cpath),
            None => false,
        }
    } else {
        str_eq(r.path.as_str(), cpath)
    }
}

/// The action for one child, recording in `paths_covered` the path of the
/// removing rule that forbids it, if one does.
fn child_action(
    config: &ConstraintConfig,
    subpaths: &Vec<String>,
    cpath: &str,
    paths_covered: &mut Vec<String>,
) -> (act: ChildAction)
    requires
        rules_compile(config@.fields),
    ensures
        act == child_status(config@.fields, subpaths.deep_view(), cpath@),
        final(paths_covered).deep_view() == old(paths_covered).deep_view() + removal_entry(
            config@.fields,
            subpaths.deep_view(),
            cpath@,
        ),
{
    let ghost rules = config@.fields;
    let ghost sp = subpaths.deep_view();
    let n = config.fields.len();
    let mut act = ChildAction::Forbidden;
    let mut i: usize = 0;
    while i < n
        invariant
            n == rules.len(),
            rules == config@.fields,
            sp == subpaths.deep_view(),
            rules_compile(rules),
            i <= n,
            act == granted_upto(rules, i as int, sp, cpath@),
        decreases n - i,
    {
        let r = &config.fields[i];
        proof {
            assert(rules[i as int] == r@);
        }
        if !r.remove && act != ChildAction::Required {
            if rule_allows_exec(r, subpaths, cpath) {
                act = if r.required {
                    ChildAction::Required
                } else {
                    ChildAction::Allowed
                };
            }
        }
        proof {
            if some_grant(rules, i + 1, sp, cpath@, true) {
                if !some_grant(rules, i as int, sp, cpath@, true) {
                    let w = choose|w: int|
                        0 <= w < i + 1 && !(#[trigger] rules[w]).remove && rules[w].required
                            && rule_allows(rules[w], sp, cpath@);
                    assert(w == i);
                }
            }
            if some_grant(rules, i + 1, sp, cpath@, false) {
                if !some_grant(rules, i as int, sp, cpath@, false) {
                    let w = choose|w: int|
                        0 <= w < i + 1 && !(#[trigger] rules[w]).remove && rule_allows(rules[w], sp, cpath@);
                    assert(w == i);
                }
            }
            if some_grant(rules, i as int, sp, cpath@, true) {
                let w = choose|w: int|
                    0 <= w < i && !(#[trigger] rules[w]).remove && rules[w].required
                        && rule_allows(rules[w], sp, cpath@);
                assert(some_grant(rules, i + 1, sp, cpath@, true));
            }
            if some_grant(rules, i as int, sp, cpath@, false) {
                let w = choose|w: int|
                    0 <= w < i && !(#[trigger] rules[w]).remove && rule_allows(rules[w], sp, cpath@);
                assert(some_grant(rules, i + 1, sp, cpath@, false));
            }
        }
        i = i + 1;
    }
    if act == ChildAction::Forbidden {
        proof {
            assert(paths_covered.deep_view() =~= old(paths_covered).deep_view() + removal_entry(rules, sp, cpath@));
        }
        return act;
    }
    let mut k: usize = 0;
    while k < n
        invariant
            n == rules.len(),
            rules == config@.fields,
            rules_compile(rules),
            k <= n,
            act == granted(rules, sp, cpath@),
            act != ChildAction::Forbidden,
            sp == subpaths.deep_view(),
            paths_covered.deep_view() == old(paths_covered).deep_view(),
            forall|j: int| 0 <= j < k ==> !rule_removes(#[trigger] rules[j], cpath@),
        decreases n - k,
    {
        let r = &config.fields[k];
        proof {
            assert(rules[k as int] == r@);
        }
        if rule_removes_exec(r, cpath) {
            paths_covered.push(r.path.clone());
            proof {
                assert(first_remover(rules, cpath@, k as int));
                let j = choose|j: int| first_remover(rules, cpath@, j);
                if j < k {
                } else if j > k {
                    assert(!rule_removes(rules[k as int], cpath@));
                }
                assert(j == k);
                assert(removal_entry(rules, sp, cpath@) == seq![r@.path]);
                let ghost before = old(paths_covered).deep_view();
                let ghost after = paths_covered.deep_view();
                assert(after =~= before + seq![r@.path]);
            }
            return ChildAction::Forbidden;
        }
        k = k + 1;
    }
    proof {
        if exists|i: int| first_remover(rules, cpath@, i) {
            let j = choose|j: int| first_remover(rules, cpath@, j);
            assert(!rule_removes(rules[j], cpath@));
        }
        assert(paths_covered.deep_view() =~= old(paths_covered).deep_view() + removal_entry(rules, sp, cpath@));
    }
    act
}

/// Maps each child of the node at `ppath` to its action, in the order of
/// the node's fields, and records in `paths_covered` the removing rules that
/// take effect.
pub fn get_children_status(
    ppath: &str,
    spec: &K8sResourceSpec,
    constraintconfig: &ConstraintConfig,
    paths_covered: &mut Vec<String>,
) -> (r: Vec<(String, ChildAction)>)
    requires
        schema_wf(spec@),
        !is_leaf(spec@),
        rules_compile(constraintconfig@.fields),
    ensures
        r@.len() == children(spec@).len(),
        forall|k: int|
            0 <= k < r@.len() ==> (#[trigger] r@[k]).0@ == child_path(ppath@, children(spec@)[k].0)
                && r@[k].1 == child_status(constraintconfig@.fields, leaf_paths(ppath@, spec@), r@[k].0@),
        final(paths_covered).deep_view() == old(paths_covered).deep_view() + removal_covered(
            constraintconfig@.fields,
            ppath@,
            spec@,
        ),
{
    let ghost rules = constraintconfig@.fields;
    let mut subpaths: Vec<String> = Vec::new();
    iter_all_children(ppath, spec, &mut subpaths);
    proof {
        assert(subpaths.deep_view() =~= leaf_paths(ppath@, spec@));
    }
    let kids = crate::schema::child_fields(spec);
    let ghost kv = children(spec@);
    let n = kids.len();
    let mut out: Vec<(String, ChildAction)> = Vec::new();
    let mut k: usize = 0;
    proof {
        assert(paths_covered.deep_view() =~= old(paths_covered).deep_view() + removal_covered_upto(
            rules,
            ppath@,
            spec@,
            0,
        ));
    }
    while k < n
        invariant
            n == kids@.len(),
            kv == children(spec@),
            kv.len() == n,
            forall|j: int| 0 <= j < n ==> #[trigger] kv[j] == (kids@[j].0@, kids@[j].1@),
            rules == constraintconfig@.fields,
            rules_compile(rules),
            subpaths.deep_view() == leaf_paths(ppath@, spec@),
            k <= n,
            out@.len() == k,
            forall|j: int|
                0 <= j < k ==> (#[trigger] out@[j]).0@ == child_path(ppath@, kv[j].0) && out@[j].1
                    == child_status(rules, leaf_paths(ppath@, spec@), out@[j].0@),
            paths_covered.deep_view() == old(paths_covered).deep_view() + removal_covered_upto(
                rules,
                ppath@,
                spec@,
                k as int,
            ),
        decreases n - k,
    {
        let cpath = join_child(ppath, kids[k].0.as_str());
        let ghost before = paths_covered.deep_view();
        let act = child_action(constraintconfig, &subpaths, cpath.as_str(), paths_covered);
        proof {
            let sp = leaf_paths(ppath@, spec@);
            assert(kv[k as int].0 == kids@[k as int].0@);
            assert(cpath@ == child_path(ppath@, kv[k as int].0));
            assert(removal_covered_upto(rules, ppath@, spec@, k + 1) == removal_covered_upto(
                rules,
                ppath@,
                spec@,
                k as int,
            ) + removal_entry(rules, sp, cpath@));
            assert(paths_covered.deep_view() =~= old(paths_covered).deep_view() + removal_covered_upto(
                rules,
                ppath@,
                spec@,
                k + 1,
            ));
        }
        out.push((cpath, act));
        k = k + 1;
    }
    out
}

/// Why a configuration cannot be applied to a schema.
#[derive(Debug)]
pub enum ConstrainError {
    /// A rule brings values for a field that has an enum already, and does
    /// not say whether they replace or extend it. Holds the field's path.
    MissingValuesMode(String),
    /// A rule sets element bounds on a field that is not an array. Holds the
    /// field's path.
    MinmaxOnNonArray(String),
}

/// The mathematical value of a [`ConstrainError`].
pub enum ConstrainFailure {
    MissingValuesMode(Seq<char>),
    MinmaxOnNonArray(Seq<char>),
}

impl View for ConstrainError {
    type V = ConstrainFailure;

    open spec fn view(&self) -> ConstrainFailure {
        match self {
            ConstrainError::MissingValuesMode(p) => ConstrainFailure::MissingValuesMode(p@),
            ConstrainError::MinmaxOnNonArray(p) => ConstrainFailure::MinmaxOnNonArray(p@),
        }
    }
}

/// Whether rule `r` targets the node at `path` itself: by equal path, or
/// for a regular-expression rule by a match.
pub open spec fn targets(r: FieldRule, path: Seq<char>) -> bool {
    if r.regex {
        regex_match(r.path, path)
    } else {
        r.path == path
    }
}

/// The effect of one rule on the node it targets: its values fill an empty
/// enum, or replace or extend an existing one as its mode says (without a
/// mode that is an error); its regular-expression values replace the node's;
/// its element bounds are set, which only an array may have.
pub open spec fn apply_rule(node: Schema, path: Seq<char>, r: FieldRule) -> Result<Schema, ConstrainFailure> {
    let after_values: Result<Schema, ConstrainFailure> = match r.values {
        None => Ok(node),
        Some(vals) => if node.enum_values.len() == 0 {
            Ok(Schema { enum_values: vals, ..node })
        } else {
            match r.values_mode {
                Some(ValuesMode::Override) => Ok(Schema { enum_values: vals, ..node }),
                Some(ValuesMode::Add) => Ok(Schema { enum_values: node.enum_values + vals, ..node }),
                None => Err(ConstrainFailure::MissingValuesMode(path)),
            }
        },
    };
    match after_values {
        Err(e) => Err(e),
        Ok(n1) => {
            let n2 = match r.regex_values {
                Some(rv) => Schema { enum_regex: rv, ..n1 },
                None => n1,
            };
            match r.minmax {
                None => Ok(n2),
                Some(mm) => if is_array(n2) {
                    Ok(Schema { minmax: Some(mm), ..n2 })
                } else {
                    Err(ConstrainFailure::MinmaxOnNonArray(path))
                },
            }
        },
    }
}

/// The rules that target the node at `path`, applied in order; the first
/// error stops.
pub open spec fn apply_rules(node: Schema, path: Seq<char>, rules: Seq<FieldRule>) -> Result<Schema, ConstrainFailure>
    decreases rules.len(),
{
    if rules.len() == 0 {
        Ok(node)
    } else {
        match apply_rules(node, path, rules.drop_last()) {
            Err(e) => Err(e),
            Ok(n) => if targets(rules.last(), path) {
                apply_rule(n, path, rules.last())
            } else {
                Ok(n)
            },
        }
    }
}

/// The paths of the rules that target the node at `path`, in the order of
/// the rules.
pub open spec fn targeted(rules: Seq<FieldRule>, path: Seq<char>) -> Seq<Seq<char>>
    decreases rules.len(),
{
    if rules.len() == 0 {
        Seq::empty()
    } else {
        targeted(rules.drop_last(), path) + if targets(rules.last(), path) {
            seq![rules.last().path]
        } else {
            Seq::empty()
        }
    }
}

/// The names of those children whose action is `act`, in order.
pub open spec fn names_with(
    rules: Seq<FieldRule>,
    path: Seq<char>,
    subpaths: Seq<Seq<char>>,
    kids: Seq<(Seq<char>, Schema)>,
    act: ChildAction,
) -> Seq<Seq<char>>
    decreases kids.len(),
{
    if kids.len() == 0 {
        Seq::empty()
    } else {
        let prev = names_with(rules, path, subpaths, kids.drop_last(), act);
        if child_status(rules, subpaths, child_path(path, kids.last().0)) == act {
            prev.push(kids.last().0)
        } else {
            prev
        }
    }
}

/// The node that holds the children: an array's element schema, or the node.
pub open spec fn owner_of(node: Schema) -> Schema {
    if is_array(node) && node.items is Some {
        *node.items->0
    } else {
        node
    }
}

/// The required names of the node that holds the children once the rules
/// are applied: the required children are appended, then every forbidden
/// child's name is dropped.
pub open spec fn new_required(rules: Seq<FieldRule>, path: Seq<char>, node: Schema) -> Seq<Seq<char>> {
    let sp = leaf_paths(path, node);
    let kids = children(node);
    drop_names(
        owner_of(node).required + names_with(rules, path, sp, kids, ChildAction::Required),
        names_with(rules, path, sp, kids, ChildAction::Forbidden),
    )
}

/// The names of `req` that are not among `gone`, in order.
pub open spec fn drop_names(req: Seq<Seq<char>>, gone: Seq<Seq<char>>) -> Seq<Seq<char>> {
    req.filter(|x: Seq<char>| !gone.contains(x))
}

/// The node with new children and required names in the node that holds
/// the children.
pub open spec fn rebuilt(n1: Schema, kids: Seq<(Seq<char>, Schema)>, req: Seq<Seq<char>>) -> Schema {
    if is_array(n1) && n1.items is Some {
        Schema {
            items: Some(Box::new(Schema { properties: kids, required: req, ..*n1.items->0 })),
            ..n1
        }
    } else {
        Schema { properties: kids, required: req, ..n1 }
    }
}

/// The schema below `path` narrowed by the rules: the rules that target the
/// node apply to it, forbidden children go, required children are added to
/// the required names, and every child that stays is narrowed in turn.
pub open spec fn constrained(node: Schema, path: Seq<char>, rules: Seq<FieldRule>) -> Result<Schema, ConstrainFailure>
    decreases node, 1nat,
{
    match apply_rules(node, path, rules) {
        Err(e) => Err(e),
        Ok(n1) => match constrained_list(children(node), path, rules, leaf_paths(path, node)) {
            Err(e) => Err(e),
            Ok(kids) => Ok(rebuilt(n1, kids, new_required(rules, path, node))),
        },
    }
}

/// The children that stay, each narrowed, in order; the first error stops.
pub open spec fn constrained_list(
    kids: Seq<(Seq<char>, Schema)>,
    path: Seq<char>,
    rules: Seq<FieldRule>,
    subpaths: Seq<Seq<char>>,
) -> Result<Seq<(Seq<char>, Schema)>, ConstrainFailure>
    decreases kids, 0nat,
{
    if kids.len() == 0 {
        Ok(Seq::empty())
    } else {
        match constrained_list(kids.drop_last(), path, rules, subpaths) {
            Err(e) => Err(e),
            Ok(prev) => {
                let cp = child_path(path, kids.last().0);
                if child_status(rules, subpaths, cp) == ChildAction::Forbidden {
                    Ok(prev)
                } else {
                    match constrained(kids.last().1, cp, rules) {
                        Err(e) => Err(e),
                        Ok(c) => Ok(prev.push((kids.last().0, c))),
                    }
                }
            },
        }
    }
}

/// The rule paths that take effect while the schema below `path` is
/// narrowed, in the order they take effect: the removing rules that forbid
/// a child of the node, the rules that target the node, then those below
/// the children that stay, in order.
pub open spec fn covered(node: Schema, path: Seq<char>, rules: Seq<FieldRule>) -> Seq<Seq<char>>
    decreases node, 1nat,
{
    removal_covered(rules, path, node) + targeted(rules, path) + covered_list(
        children(node),
        path,
        rules,
        leaf_paths(path, node),
    )
}

/// The rule paths that take effect below the children that stay.
pub open spec fn covered_list(
    kids: Seq<(Seq<char>, Schema)>,
    path: Seq<char>,
    rules: Seq<FieldRule>,
    subpaths: Seq<Seq<char>>,
) -> Seq<Seq<char>>
    decreases kids, 0nat,
{
    if kids.len() == 0 {
        Seq::empty()
    } else {
        let cp = child_path(path, kids.last().0);
        covered_list(kids.drop_last(), path, rules, subpaths) + if child_status(rules, subpaths, cp)
            == ChildAction::Forbidden {
            Seq::empty()
        } else {
            covered(kids.last().1, cp, rules)
        }
    }
}

/// Copies of a list of values.
pub fn copy_values(v: &Vec<JsonValue>) -> (r: Vec<JsonValue>)
    ensures
        crate::json::json_seq(r@) == crate::json::json_seq(v@),
{
    let mut r: Vec<JsonValue> = Vec::new();
    append_values(&mut r, v);
    proof {
        assert(crate::json::json_seq(r@) =~= crate::json::json_seq(v@));
    }
    r
}

/// Appends copies of `v` to `dst`.
pub fn append_values(dst: &mut Vec<JsonValue>, v: &Vec<JsonValue>)
    ensures
        crate::json::json_seq(final(dst)@) == crate::json::json_seq(old(dst)@) + crate::json::json_seq(v@),
{
    let n = v.len();
    let mut i: usize = 0;
    let ghost start = crate::json::json_seq(dst@);
    while i < n
        invariant
            n == v@.len(),
            i <= n,
            start == crate::json::json_seq(old(dst)@),
            crate::json::json_seq(dst@) == start + crate::json::json_seq(v@).take(i as int),
        decreases n - i,
    {
        let c = v[i].deep_copy();
        let ghost before = dst@;
        dst.push(c);
        proof {
            assert(crate::json::json_seq(dst@) =~= crate::json::json_seq(before).push(c@));
            assert(crate::json::json_seq(v@).take(i + 1) =~= crate::json::json_seq(v@).take(i as int).push(v@[i as int]@));
            assert(crate::json::json_seq(dst@) =~= start + crate::json::json_seq(v@).take(i + 1));
        }
        i = i + 1;
    }
    proof {
        assert(crate::json::json_seq(v@).take(n as int) =~= crate::json::json_seq(v@));
    }
}

/// Copies of a list of strings.
pub fn copy_strings(v: &Vec<String>) -> (r: Vec<String>)
    ensures
        crate::conf::str_seq(r@) == crate::conf::str_seq(v@),
{
    let mut r: Vec<String> = Vec::new();
    let n = v.len();
    let mut i: usize = 0;
    while i < n
        invariant
            n == v@.len(),
            i <= n,
            crate::conf::str_seq(r@) == crate::conf::str_seq(v@).take(i as int),
        decreases n - i,
    {
        let ghost before = r@;
        let c = v[i].clone();
        r.push(c);
        proof {
            assert(c@ == v@[i as int]@);
            assert(r@ == before.push(c));
            assert(crate::conf::str_seq(r@) =~= crate::conf::str_seq(before).push(c@));
            assert(crate::conf::str_seq(r@) =~= crate::conf::str_seq(v@).take(i + 1));
        }
        i = i + 1;
    }
    proof {
        assert(crate::conf::str_seq(v@).take(n as int) =~= crate::conf::str_seq(v@));
    }
    r
}

/// Applies one rule to the node it targets (see [`apply_rule`]).
fn apply_one(r: &FieldConfig, spec: &mut K8sResourceSpec, path: &str) -> (res: Result<(), ConstrainError>)
    ensures
        match apply_rule(old(spec)@, path@, r@) {
            Ok(n) => res is Ok && final(spec)@ == n,
            Err(e) => res matches Err(x) && x@ == e,
        },
        final(spec).properties == old(spec).properties,
        final(spec).items == old(spec).items,
        final(spec).required == old(spec).required,
        final(spec)._type == old(spec)._type,
{
    let ghost node = spec@;
    match &r.values {
        Some(values) => {
            if spec._enum.len() == 0 {
                spec._enum = copy_values(values);
            } else {
                match r.values_mode {
                    Some(ValuesMode::Override) => {
                        spec._enum = copy_values(values);
                    },
                    Some(ValuesMode::Add) => {
                        append_values(&mut spec._enum, values);
                    },
                    None => {
                        return Err(ConstrainError::MissingValuesMode(owned(path)));
                    },
                }
            }
        },
        None => {},
    }
    let ghost n1 = spec@;
    proof {
        let after_values: Result<Schema, ConstrainFailure> = match r@.values {
            None => Ok(node),
            Some(vals) => if node.enum_values.len() == 0 {
                Ok(Schema { enum_values: vals, ..node })
            } else {
                match r@.values_mode {
                    Some(ValuesMode::Override) => Ok(Schema { enum_values: vals, ..node }),
                    Some(ValuesMode::Add) => Ok(Schema { enum_values: node.enum_values + vals, ..node }),
                    None => Err(ConstrainFailure::MissingValuesMode(path@)),
                }
            },
        };
        assert(after_values == Ok::<Schema, ConstrainFailure>(n1));
    }
    match &r.regex_values {
        Some(rv) => {
            spec._enum_regex = copy_strings(rv);
        },
        None => {},
    }
    match r.minmax {
        Some(mm) => {
            if !str_eq(spec._type.as_str(), "array") {
                return Err(ConstrainError::MinmaxOnNonArray(owned(path)));
            }
            spec.minmax = Some(mm);
        },
        None => {},
    }
    Ok(())
}

/// Whether rule `r` targets the node at `path`.
fn targets_exec(r: &FieldConfig, path: &str) -> (b: bool)
    requires
        r@.regex ==> regex_compiles(r@.path),
    ensures
        b == targets(r@, path@),
{
    if r.regex {
        match Pattern::new(r.path.as_str()) {
            Some(p) => p.is_match(path),
            None => false,
        }
    } else {
        str_eq(r.path.as_str(), path)
    }
}

/// Applies, in order, every rule that targets the node at `path`, and
/// records their paths in `paths_covered`.
fn apply_field_configs(
    config: &ConstraintConfig,
    spec: &mut K8sResourceSpec,
    path: &str,
    paths_covered: &mut Vec<String>,
) -> (res: Result<(), ConstrainError>)
    requires
        rules_compile(config@.fields),
    ensures
        match apply_rules(old(spec)@, path@, config@.fields) {
            Ok(n) => res is Ok && final(spec)@ == n && final(paths_covered).deep_view() == old(
                paths_covered,
            ).deep_view() + targeted(config@.fields, path@),
            Err(e) => res matches Err(x) && x@ == e,
        },
        final(spec).properties == old(spec).properties,
        final(spec).items == old(spec).items,
        final(spec).required == old(spec).required,
        final(spec)._type == old(spec)._type,
{
    let ghost rules = config@.fields;
    let ghost node = spec@;
    let n = config.fields.len();
    let mut i: usize = 0;
    proof {
        assert(rules.take(0) =~= Seq::<FieldRule>::empty());
        assert(paths_covered.deep_view() =~= old(paths_covered).deep_view() + targeted(rules.take(0), path@));
    }
    while i < n
        invariant
            n == rules.len(),
            rules == config@.fields,
            rules_compile(rules),
            node == old(spec)@,
            i <= n,
            apply_rules(node, path@, rules.take(i as int)) == Ok::<Schema, ConstrainFailure>(spec@),
            paths_covered.deep_view() == old(paths_covered).deep_view() + targeted(rules.take(i as int), path@),
            spec.properties == old(spec).properties,
            spec.items == old(spec).items,
            spec.required == old(spec).required,
            spec._type == old(spec)._type,
        decreases n - i,
    {
        let r = &config.fields[i];
        proof {
            assert(rules[i as int] == r@);
            assert(rules.take(i + 1).drop_last() =~= rules.take(i as int));
            assert(rules.take(i + 1).last() == r@);
        }
        let ghost before = paths_covered.deep_view();
        let hit = targets_exec(r, path);
        if hit {
            paths_covered.push(r.path.clone());
            proof {
                assert(paths_covered.deep_view() =~= before.push(r@.path));
            }
            let res = apply_one(r, spec, path);
            match res {
                Err(e) => {
                    proof {
                        lemma_apply_rules_err_stays(node, path@, rules, i + 1, n as int);
                        assert(rules.take(n as int) =~= rules);
                    }
                    return Err(e);
                },
                Ok(()) => {},
            }
        }
        proof {
            assert(targeted(rules.take(i + 1), path@) == targeted(rules.take(i as int), path@) + if hit {
                seq![r@.path]
            } else {
                Seq::empty()
            });
            assert(paths_covered.deep_view() =~= old(paths_covered).deep_view() + targeted(
                rules.take(i + 1),
                path@,
            ));
        }
        i = i + 1;
    }
    proof {
        assert(rules.take(n as int) =~= rules);
    }
    Ok(())
}

/// Once applying a prefix of the rules fails, longer prefixes fail the same.
proof fn lemma_apply_rules_err_stays(node: Schema, path: Seq<char>, rules: Seq<FieldRule>, i: int, k: int)
    requires
        0 <= i <= k <= rules.len(),
        apply_rules(node, path, rules.take(i)) is Err,
    ensures
        apply_rules(node, path, rules.take(k)) == apply_rules(node, path, rules.take(i)),
    decreases k - i,
{
    if k > i {
        lemma_apply_rules_err_stays(node, path, rules, i, k - 1);
        assert(rules.take(k).drop_last() =~= rules.take(k - 1));
    }
}

/// A name is among the names with an action exactly when one of the
/// children with that action carries it.
proof fn lemma_names_with_contains(
    rules: Seq<FieldRule>,
    path: Seq<char>,
    subpaths: Seq<Seq<char>>,
    kids: Seq<(Seq<char>, Schema)>,
    act: ChildAction,
    x: Seq<char>,
)
    ensures
        names_with(rules, path, subpaths, kids, act).contains(x) <==> exists|k: int|
            0 <= k < kids.len() && child_status(rules, subpaths, child_path(path, #[trigger] kids[k].0))
                == act && kids[k].0 == x,
    decreases kids.len(),
{
    if kids.len() > 0 {
        let prev = names_with(rules, path, subpaths, kids.drop_last(), act);
        lemma_names_with_contains(rules, path, subpaths, kids.drop_last(), act, x);
        let cur = names_with(rules, path, subpaths, kids, act);
        if cur.contains(x) {
            let i = choose|i: int| 0 <= i < cur.len() && cur[i] == x;
            if i < prev.len() {
                assert(prev[i] == x);
                let k = choose|k: int|
                    0 <= k < kids.drop_last().len() && child_status(
                        rules,
                        subpaths,
                        child_path(path, #[trigger] kids.drop_last()[k].0),
                    ) == act && kids.drop_last()[k].0 == x;
                assert(kids[k] == kids.drop_last()[k]);
            } else {
                assert(kids[kids.len() - 1] == kids.last());
            }
        }
        if exists|k: int|
            0 <= k < kids.len() && child_status(rules, subpaths, child_path(path, #[trigger] kids[k].0))
                == act && kids[k].0 == x {
            let k = choose|k: int|
                0 <= k < kids.len() && child_status(rules, subpaths, child_path(path, #[trigger] kids[k].0))
                    == act && kids[k].0 == x;
            if k < kids.len() - 1 {
                assert(kids.drop_last()[k] == kids[k]);
                assert(prev.contains(x));
                let i = choose|i: int| 0 <= i < prev.len() && prev[i] == x;
                assert(cur[i] == x);
            } else {
                assert(cur[cur.len() - 1] == x);
            }
        }
    }
}

/// Once narrowing a prefix of the children fails, longer prefixes fail the
/// same.
proof fn lemma_list_err_stays(
    kids: Seq<(Seq<char>, Schema)>,
    path: Seq<char>,
    rules: Seq<FieldRule>,
    subpaths: Seq<Seq<char>>,
    i: int,
    k: int,
)
    requires
        0 <= i <= k <= kids.len(),
        constrained_list(kids.take(i), path, rules, subpaths) is Err,
    ensures
        constrained_list(kids.take(k), path, rules, subpaths) == constrained_list(
            kids.take(i),
            path,
            rules,
            subpaths,
        ),
    decreases k - i,
{
    if k > i {
        lemma_list_err_stays(kids, path, rules, subpaths, i, k - 1);
        assert(kids.take(k).drop_last() =~= kids.take(k - 1));
    }
}

/// Narrows the children of a node: appends the required children to
/// `required`, drops the forbidden ones from `props` and from `required`,
/// and narrows every child that stays.
fn constrain_children(
    config: &ConstraintConfig,
    props: &mut Vec<(String, K8sResourceSpec)>,
    required: &mut Vec<String>,
    statuses: &Vec<(String, ChildAction)>,
    parentpath: &str,
    Ghost(sp): Ghost<Seq<Seq<char>>>,
    paths_covered: &mut Vec<String>,
) -> (res: Result<(), ConstrainError>)
    requires
        rules_compile(config@.fields),
        statuses@.len() == old(props)@.len(),
        forall|k: int|
            0 <= k < statuses@.len() ==> (#[trigger] statuses@[k]).0@ == child_path(
                parentpath@,
                old(props)@[k].0@,
            ) && statuses@[k].1 == child_status(config@.fields, sp, statuses@[k].0@),
        forall|k: int| 0 <= k < old(props)@.len() ==> schema_wf(#[trigger] old(props)@[k].1@),
    ensures
        match constrained_list(prop_views(old(props)@), parentpath@, config@.fields, sp) {
            Ok(ks) => res is Ok && prop_views(final(props)@) == ks && str_seq(final(required)@)
                == drop_names(
                str_seq(old(required)@) + names_with(
                    config@.fields,
                    parentpath@,
                    sp,
                    prop_views(old(props)@),
                    ChildAction::Required,
                ),
                names_with(
                    config@.fields,
                    parentpath@,
                    sp,
                    prop_views(old(props)@),
                    ChildAction::Forbidden,
                ),
            ) && final(paths_covered).deep_view() == old(paths_covered).deep_view() + covered_list(
                prop_views(old(props)@),
                parentpath@,
                config@.fields,
                sp,
            ),
            Err(e) => res matches Err(x) && x@ == e,
        },
    decreases *old(props), 0nat,
{
    let ghost rules = config@.fields;
    let ghost orig = props@;
    let ghost kv = prop_views(orig);
    let ghost path = parentpath@;
    let n = statuses.len();
    proof {
        assert forall|k: int| 0 <= k < n implies child_status(rules, sp, child_path(path, #[trigger] kv[k].0))
            == statuses@[k].1 by {
            assert(kv[k].0 == orig[k].0@);
        }
    }
    // required children join the required names
    let mut k: usize = 0;
    while k < n
        invariant
            n == statuses@.len(),
            n == orig.len(),
            kv == prop_views(orig),
            path == parentpath@,
            props@ == orig,
            k <= n,
            forall|j: int| 0 <= j < n ==> child_status(rules, sp, child_path(path, #[trigger] kv[j].0))
                == statuses@[j].1,
            str_seq(required@) == str_seq(old(required)@) + names_with(
                rules,
                path,
                sp,
                kv.take(k as int),
                ChildAction::Required,
            ),
        decreases n - k,
    {
        proof {
            assert(kv.take(k + 1).drop_last() =~= kv.take(k as int));
            assert(kv.take(k + 1).last() == kv[k as int]);
        }
        let ghost before = required@;
        if statuses[k].1 == ChildAction::Required {
            let name = props[k].0.clone();
            required.push(name);
            proof {
                assert(str_seq(required@) =~= str_seq(before).push(kv[k as int].0));
            }
        }
        proof {
            assert(str_seq(required@) =~= str_seq(old(required)@) + names_with(
                rules,
                path,
                sp,
                kv.take(k + 1),
                ChildAction::Required,
            ));
        }
        k = k + 1;
    }
    proof {
        assert(kv.take(n as int) =~= kv);
    }
    // forbidden children leave the required names
    let ghost gone = names_with(rules, path, sp, kv, ChildAction::Forbidden);
    let ghost all_req = str_seq(required@);
    let mut kept_req: Vec<String> = Vec::new();
    let m = required.len();
    let mut j: usize = 0;
    while j < m
        invariant
            m == required@.len(),
            all_req == str_seq(required@),
            n == statuses@.len(),
            n == orig.len(),
            kv == prop_views(orig),
            path == parentpath@,
            props@ == orig,
            j <= m,
            forall|q: int| 0 <= q < n ==> child_status(rules, sp, child_path(path, #[trigger] kv[q].0))
                == statuses@[q].1,
            gone == names_with(rules, path, sp, kv, ChildAction::Forbidden),
            str_seq(kept_req@) == all_req.take(j as int).filter(|x: Seq<char>| !gone.contains(x)),
        decreases m - j,
    {
        // is required[j] the name of a forbidden child?
        let mut hit = false;
        let mut q: usize = 0;
        while q < n
            invariant
                n == statuses@.len(),
                n == orig.len(),
                kv == prop_views(orig),
                path == parentpath@,
            path == parentpath@,
                props@ == orig,
                j < m,
                m == required@.len(),
                q <= n,
                forall|q2: int| 0 <= q2 < n ==> child_status(rules, sp, child_path(path, #[trigger] kv[q2].0))
                    == statuses@[q2].1,
                hit == exists|q2: int|
                    0 <= q2 < q && child_status(rules, sp, child_path(path, #[trigger] kv[q2].0))
                        == ChildAction::Forbidden && kv[q2].0 == required@[j as int]@,
            decreases n - q,
        {
            if statuses[q].1 == ChildAction::Forbidden && str_eq(
                props[q].0.as_str(),
                required[j].as_str(),
            ) {
                hit = true;
            }
            proof {
                assert(kv[q as int].0 == orig[q as int].0@);
            }
            q = q + 1;
        }
        proof {
            lemma_names_with_contains(rules, path, sp, kv, ChildAction::Forbidden, required@[j as int]@);
            assert(hit == gone.contains(all_req[j as int]));
            reveal(Seq::filter);
            assert(all_req.take(j + 1).drop_last() =~= all_req.take(j as int));
            assert(all_req.take(j + 1).last() == all_req[j as int]);
        }
        let ghost before = kept_req@;
        if !hit {
            let c = required[j].clone();
            kept_req.push(c);
            proof {
                assert(str_seq(kept_req@) =~= str_seq(before).push(all_req[j as int]));
            }
        }
        j = j + 1;
    }
    proof {
        assert(all_req.take(m as int) =~= all_req);
    }
    std::mem::swap(required, &mut kept_req);
    // children that stay are narrowed in turn
    let mut rest: Vec<(String, K8sResourceSpec)> = Vec::new();
    std::mem::swap(props, &mut rest);
    let ghost pc_start = paths_covered.deep_view();
    let mut k: usize = 0;
    proof {
        assert(rest@ =~= orig.skip(0));
        assert(kv.take(0) =~= Seq::<(Seq<char>, Schema)>::empty());
        assert(prop_views(props@) =~= Seq::<(Seq<char>, Schema)>::empty());
        assert(paths_covered.deep_view() =~= pc_start + covered_list(kv.take(0), path, rules, sp));
    }
    while k < n
        invariant
            n == statuses@.len(),
            n == orig.len(),
            kv == prop_views(orig),
            path == parentpath@,
            orig == old(props)@,
            rules == config@.fields,
            rules_compile(rules),
            k <= n,
            rest@ == orig.skip(k as int),
            forall|q: int| 0 <= q < n ==> child_status(rules, sp, child_path(path, #[trigger] kv[q].0))
                == statuses@[q].1,
            forall|q: int|
                0 <= q < statuses@.len() ==> (#[trigger] statuses@[q]).0@ == child_path(
                    parentpath@,
                    orig[q].0@,
                ),
            forall|q: int| 0 <= q < n ==> schema_wf(#[trigger] orig[q].1@),
            constrained_list(kv.take(k as int), path, rules, sp) == Ok::<
                Seq<(Seq<char>, Schema)>,
                ConstrainFailure,
            >(prop_views(props@)),
            paths_covered.deep_view() == pc_start + covered_list(kv.take(k as int), path, rules, sp),
            str_seq(required@) == drop_names(
                str_seq(old(required)@) + names_with(rules, path, sp, kv, ChildAction::Required),
                names_with(rules, path, sp, kv, ChildAction::Forbidden),
            ),
            pc_start == old(paths_covered).deep_view(),
        decreases n - k,
    {
        let (name, mut child) = rest.remove(0);
        proof {
            assert(rest@ =~= orig.skip(k + 1));
            assert(name == orig[k as int].0 && child == orig[k as int].1);
            assert(kv.take(k + 1).drop_last() =~= kv.take(k as int));
            assert(kv.take(k + 1).last() == kv[k as int]);
            assert(kv[k as int] == (name@, child@));
            assert(statuses@[k as int].0@ == child_path(path, name@));
        }
        if statuses[k].1 != ChildAction::Forbidden {
            proof {
                broadcast use vstd::std_specs::vec::group_vec_axioms;
                assert(decreases_to!(*old(props) => old(props)[k as int]));
                assert(decreases_to!(*old(props) => child));
            }
            let ghost before_pc = paths_covered.deep_view();
            let r = constrain_spec(config, &mut child, statuses[k].0.as_str(), paths_covered);
            match r {
                Err(e) => {
                    proof {
                        lemma_list_err_stays(kv, path, rules, sp, k + 1, n as int);
                        assert(kv.take(n as int) =~= kv);
                    }
                    return Err(e);
                },
                Ok(()) => {},
            }
            let ghost before = props@;
            props.push((name, child));
            proof {
                assert(prop_views(props@) =~= prop_views(before).push((kv[k as int].0, child@)));
                assert(paths_covered.deep_view() =~= pc_start + covered_list(kv.take(k + 1), path, rules, sp));
            }
        } else {
            proof {
                assert(paths_covered.deep_view() =~= pc_start + covered_list(kv.take(k + 1), path, rules, sp));
            }
        }
        k = k + 1;
    }
    proof {
        assert(kv.take(n as int) =~= kv);
    }
    Ok(())
}

/// Narrows the schema below `parentpath` by the configuration (see
/// [`constrained`]), recording in `paths_covered` every rule path that takes
/// effect (see [`covered`]).
pub fn constrain_spec(
    constraintconfig: &ConstraintConfig,
    spec: &mut K8sResourceSpec,
    parentpath: &str,
    paths_covered: &mut Vec<String>,
) -> (res: Result<(), ConstrainError>)
    requires
        schema_wf(old(spec)@),
        rules_compile(constraintconfig@.fields),
    ensures
        match constrained(old(spec)@, parentpath@, constraintconfig@.fields) {
            Ok(t) => res is Ok && final(spec)@ == t && final(paths_covered).deep_view() == old(
                paths_covered,
            ).deep_view() + covered(old(spec)@, parentpath@, constraintconfig@.fields),
            Err(e) => res matches Err(x) && x@ == e,
        },
    decreases *old(spec), 1nat,
{
    let ghost rules = constraintconfig@.fields;
    let ghost node = spec@;
    let ghost path = parentpath@;
    let ghost sp = leaf_paths(path, node);
    let ghost pc0 = paths_covered.deep_view();
    proof {
        lemma_owner(*spec);
    }
    let leaf = spec.properties.len() == 0 && spec.items.is_none();
    let statuses = if leaf {
        proof {
            assert(children(node).len() == 0);
            assert(removal_covered(rules, path, node) =~= Seq::<Seq<char>>::empty());
            assert(paths_covered.deep_view() =~= pc0 + removal_covered(rules, path, node));
        }
        Vec::new()
    } else {
        get_children_status(parentpath, spec, constraintconfig, paths_covered)
    };
    let ghost pc1 = paths_covered.deep_view();
    let applied = apply_field_configs(constraintconfig, spec, parentpath, paths_covered);
    match applied {
        Err(e) => {
            return Err(e);
        },
        Ok(()) => {},
    }
    let ghost n1 = spec@;
    let ghost pc2 = paths_covered.deep_view();
    let ghost kv = children(node);
    let array = str_eq(spec._type.as_str(), "array") && spec.items.is_some();
    proof {
        assert(array == (is_array(node) && node.items is Some));
        assert(statuses@.len() == kv.len());
        assert(kv == prop_views(owner_node(*old(spec)).properties@));
        assert(apply_rules(node, path, rules) == Ok::<Schema, ConstrainFailure>(n1));
    }
    let res = if array {
        let it = spec.items.take();
        match it {
            Some(b) => {
                let mut inner: K8sResourceSpec = *b;
                let ghost inner0 = inner;
                proof {
                    assert(inner0 == owner_node(*old(spec)));
                    assert(n1.items == Some(Box::new(inner0@)));
                }
                let mut props: Vec<(String, K8sResourceSpec)> = Vec::new();
                std::mem::swap(&mut inner.properties, &mut props);
                let mut req: Vec<String> = Vec::new();
                std::mem::swap(&mut inner.required, &mut req);
                proof {
                    assert(decreases_to!(*old(spec) => props));
                    assert(forall|k: int| 0 <= k < props@.len() ==> #[trigger] kv[k] == (props@[k].0@, props@[k].1@));
                }
                let r = constrain_children(
                    constraintconfig,
                    &mut props,
                    &mut req,
                    &statuses,
                    parentpath,
                    Ghost(sp),
                    paths_covered,
                );
                inner.properties = props;
                inner.required = req;
                proof {
                    lemma_view_fields(inner);
                    lemma_view_fields(inner0);
                    assert(inner@ == Schema {
                        properties: prop_views(inner.properties@),
                        required: str_seq(inner.required@),
                        ..inner0@
                    });
                }
                spec.items = Some(Box::new(inner));
                r
            },
            None => Ok(()),
        }
    } else {
        let mut props: Vec<(String, K8sResourceSpec)> = Vec::new();
        std::mem::swap(&mut spec.properties, &mut props);
        let mut req: Vec<String> = Vec::new();
        std::mem::swap(&mut spec.required, &mut req);
        proof {
            assert(decreases_to!(*old(spec) => props));
            assert(forall|k: int| 0 <= k < props@.len() ==> #[trigger] kv[k] == (props@[k].0@, props@[k].1@));
        }
        let r = constrain_children(
            constraintconfig,
            &mut props,
            &mut req,
            &statuses,
            parentpath,
            Ghost(sp),
            paths_covered,
        );
        spec.properties = props;
        spec.required = req;
        proof {
            lemma_view_fields(*spec);
            assert(spec@ == Schema {
                properties: prop_views(spec.properties@),
                required: str_seq(spec.required@),
                ..n1
            });
        }
        r
    };
    proof {
        if res is Ok {
            assert(paths_covered.deep_view() =~= pc0 + covered(node, path, rules));
        }
    }
    match res {
        Err(e) => Err(e),
        Ok(()) => Ok(()),
    }
}

/// The children that stay are those, in order, whose action is not
/// forbidden.
proof fn lemma_kept_names(
    kids: Seq<(Seq<char>, Schema)>,
    path: Seq<char>,
    rules: Seq<FieldRule>,
    subpaths: Seq<Seq<char>>,
    name: Seq<char>,
)
    requires
        constrained_list(kids, path, rules, subpaths) is Ok,
    ensures
        names(constrained_list(kids, path, rules, subpaths)->Ok_0).contains(name) <==> exists|k: int|
            0 <= k < kids.len() && (#[trigger] kids[k]).0 == name && child_status(
                rules,
                subpaths,
                child_path(path, name),
            ) != ChildAction::Forbidden,
    decreases kids.len(),
{
    if kids.len() > 0 {
        let init = kids.drop_last();
        lemma_kept_names(init, path, rules, subpaths, name);
        let prev = constrained_list(init, path, rules, subpaths)->Ok_0;
        let out = constrained_list(kids, path, rules, subpaths)->Ok_0;
        let cp = child_path(path, kids.last().0);
        if child_status(rules, subpaths, cp) == ChildAction::Forbidden {
            assert(out == prev);
        } else {
            let c = constrained(kids.last().1, cp, rules)->Ok_0;
            assert(out == prev.push((kids.last().0, c)));
            assert(names(out) =~= names(prev).push(kids.last().0));
        }
        if exists|k: int|
            0 <= k < kids.len() && (#[trigger] kids[k]).0 == name && child_status(
                rules,
                subpaths,
                child_path(path, name),
            ) != ChildAction::Forbidden {
            let k = choose|k: int|
                0 <= k < kids.len() && (#[trigger] kids[k]).0 == name && child_status(
                    rules,
                    subpaths,
                    child_path(path, name),
                ) != ChildAction::Forbidden;
            if k < init.len() {
                assert(init[k] == kids[k]);
            } else {
                assert(names(out).last() == name);
            }
        }
        if names(prev).contains(name) {
            let k = choose|k: int|
                0 <= k < init.len() && (#[trigger] init[k]).0 == name && child_status(
                    rules,
                    subpaths,
                    child_path(path, name),
                ) != ChildAction::Forbidden;
            assert(kids[k] == init[k]);
            let j = choose|j: int| 0 <= j < names(prev).len() && names(prev)[j] == name;
            if child_status(rules, subpaths, cp) != ChildAction::Forbidden {
                assert(names(out)[j] == name);
            }
        }
        if names(out).contains(name) && !names(prev).contains(name) {
            let j = choose|j: int| 0 <= j < names(out).len() && names(out)[j] == name;
            if child_status(rules, subpaths, cp) == ChildAction::Forbidden {
                assert(false);
            } else if j < names(prev).len() {
                assert(names(prev)[j] == name);
            } else {
                assert(kids[kids.len() - 1].0 == name);
            }
        }
    } else {
        assert(names(constrained_list(kids, path, rules, subpaths)->Ok_0) =~= Seq::empty());
    }
}

/// Applying the rules to a node keeps its type and element schema.
proof fn lemma_apply_rules_shape(node: Schema, path: Seq<char>, rules: Seq<FieldRule>)
    requires
        apply_rules(node, path, rules) is Ok,
    ensures
        apply_rules(node, path, rules)->Ok_0.ty == node.ty,
        apply_rules(node, path, rules)->Ok_0.items == node.items,
    decreases rules.len(),
{
    if rules.len() > 0 {
        lemma_apply_rules_shape(node, path, rules.drop_last());
    }
}

/// Applying the rules that target a node leaves its value patterns as the
/// last targeting rule that brings value patterns sets them.
proof fn lemma_regex_values_applied(node: Schema, path: Seq<char>, rules: Seq<FieldRule>, i: int, rv: Seq<Seq<char>>)
    requires
        0 <= i < rules.len(),
        targets(rules[i], path),
        rules[i].regex_values == Some(rv),
        forall|j: int| i < j < rules.len() && targets(#[trigger] rules[j], path) ==> rules[j].regex_values is None,
        apply_rules(node, path, rules) is Ok,
    ensures
        apply_rules(node, path, rules)->Ok_0.enum_regex == rv,
    decreases rules.len(),
{
    let prev = rules.drop_last();
    let n = rules.len() - 1;
    if apply_rules(node, path, prev) is Err {
        assert(apply_rules(node, path, rules) is Err);
    }
    if i < n {
        assert forall|j: int| i < j < prev.len() && targets(#[trigger] prev[j], path) implies prev[j].regex_values is None by {
            assert(prev[j] == rules[j]);
        }
        lemma_regex_values_applied(node, path, prev, i, rv);
        if targets(rules[n], path) {
            assert(rules[n].regex_values is None);
        }
    }
}

/// A rule that targets a node and brings value patterns gives the narrowed
/// node exactly those patterns, unless a later rule that targets the node
/// brings patterns of its own: generated values then come from them.
pub proof fn law_regex_values_applied(node: Schema, path: Seq<char>, rules: Seq<FieldRule>, i: int, rv: Seq<Seq<char>>)
    requires
        0 <= i < rules.len(),
        targets(rules[i], path),
        rules[i].regex_values == Some(rv),
        forall|j: int| i < j < rules.len() && targets(#[trigger] rules[j], path) ==> rules[j].regex_values is None,
        constrained(node, path, rules) is Ok,
    ensures
        constrained(node, path, rules)->Ok_0.enum_regex == rv,
{
    lemma_regex_values_applied(node, path, rules, i, rv);
}

/// The removal entries of the first `m` children hold the path of the
/// first removing rule of each child among them that other rules keep.
proof fn lemma_removal_recorded(rules: Seq<FieldRule>, path: Seq<char>, node: Schema, m: int, k: int, i: int)
    requires
        0 <= k < m <= children(node).len(),
        granted(rules, leaf_paths(path, node), child_path(path, children(node)[k].0)) != ChildAction::Forbidden,
        first_remover(rules, child_path(path, children(node)[k].0), i),
    ensures
        removal_covered_upto(rules, path, node, m).contains(rules[i].path),
    decreases m,
{
    let cp = child_path(path, children(node)[k].0);
    let prev = removal_covered_upto(rules, path, node, m - 1);
    let entry = removal_entry(rules, leaf_paths(path, node), child_path(path, children(node)[m - 1].0));
    assert(removal_covered_upto(rules, path, node, m) == prev + entry);
    if k == m - 1 {
        let j = choose|j: int| first_remover(rules, cp, j);
        if j < i {
            assert(!rule_removes(rules[j], cp));
        } else if j > i {
            assert(!rule_removes(rules[i], cp));
        }
        assert(entry == seq![rules[i].path]);
        assert((prev + entry)[prev.len() as int] == rules[i].path);
    } else {
        lemma_removal_recorded(rules, path, node, m - 1, k, i);
        let q = choose|q: int| 0 <= q < prev.len() && prev[q] == rules[i].path;
        assert((prev + entry)[q] == rules[i].path);
    }
}

/// A removing rule counts as taking effect when it forbids a child of a
/// visited node: when the rule removes the child, no earlier rule does, and
/// the other rules would keep the child, the rule's own path (not the
/// child's) is among the covered paths.
pub proof fn law_removing_rule_covered(node: Schema, path: Seq<char>, rules: Seq<FieldRule>, k: int, i: int)
    requires
        0 <= k < children(node).len(),
        0 <= i < rules.len(),
        rule_removes(rules[i], child_path(path, children(node)[k].0)),
        forall|j: int| 0 <= j < i ==> !rule_removes(#[trigger] rules[j], child_path(path, children(node)[k].0)),
        granted(rules, leaf_paths(path, node), child_path(path, children(node)[k].0)) != ChildAction::Forbidden,
    ensures
        covered(node, path, rules).contains(rules[i].path),
{
    lemma_removal_recorded(rules, path, node, children(node).len() as int, k, i);
    let rc = removal_covered(rules, path, node);
    let q = choose|q: int| 0 <= q < rc.len() && rc[q] == rules[i].path;
    assert(covered(node, path, rules) == rc + targeted(rules, path) + covered_list(
        children(node),
        path,
        rules,
        leaf_paths(path, node),
    ));
    assert((rc + targeted(rules, path) + covered_list(children(node), path, rules, leaf_paths(path, node)))[q]
        == rules[i].path);
}

/// Constraining allow-lists the fields: below a node, a child stays exactly
/// when some rule that does not remove lets it be generated and no removing
/// rule names it.
pub proof fn law_allow_list(node: Schema, path: Seq<char>, rules: Seq<FieldRule>, name: Seq<char>)
    requires
        constrained(node, path, rules) is Ok,
    ensures
        names(children(constrained(node, path, rules)->Ok_0)).contains(name) <==> {
            &&& names(children(node)).contains(name)
            &&& some_grant(rules, rules.len() as int, leaf_paths(path, node), child_path(path, name), false)
            &&& !exists|i: int| 0 <= i < rules.len() && rule_removes(#[trigger] rules[i], child_path(path, name))
        },
{
    let sp = leaf_paths(path, node);
    let kids = children(node);
    let n1 = apply_rules(node, path, rules)->Ok_0;
    lemma_apply_rules_shape(node, path, rules);
    let out = constrained_list(kids, path, rules, sp)->Ok_0;
    let t = rebuilt(n1, out, new_required(rules, path, node));
    assert(children(t) == out);
    lemma_kept_names(kids, path, rules, sp, name);
    let cp = child_path(path, name);
    assert(some_grant(rules, rules.len() as int, sp, cp, true) ==> some_grant(rules, rules.len() as int, sp, cp, false));
    if names(kids).contains(name) {
        let k = choose|k: int| 0 <= k < kids.len() && names(kids)[k] == name;
        assert(kids[k].0 == name);
    }
    if exists|k: int| 0 <= k < kids.len() && (#[trigger] kids[k]).0 == name && child_status(rules, sp, cp) != ChildAction::Forbidden {
        let k = choose|k: int| 0 <= k < kids.len() && (#[trigger] kids[k]).0 == name && child_status(rules, sp, cp) != ChildAction::Forbidden;
        assert(names(kids)[k] == name);
    }
}

/// The names given an action are those, in order, of the children whose
/// action it is.
proof fn lemma_names_with(
    rules: Seq<FieldRule>,
    path: Seq<char>,
    subpaths: Seq<Seq<char>>,
    kids: Seq<(Seq<char>, Schema)>,
    act: ChildAction,
    name: Seq<char>,
)
    ensures
        names_with(rules, path, subpaths, kids, act).contains(name) <==> exists|k: int|
            0 <= k < kids.len() && (#[trigger] kids[k]).0 == name && child_status(
                rules,
                subpaths,
                child_path(path, name),
            ) == act,
    decreases kids.len(),
{
    if kids.len() > 0 {
        let init = kids.drop_last();
        lemma_names_with(rules, path, subpaths, init, act, name);
        let prev = names_with(rules, path, subpaths, init, act);
        let out = names_with(rules, path, subpaths, kids, act);
        let last = kids.last().0;
        let hit = child_status(rules, subpaths, child_path(path, last)) == act;
        if hit {
            assert(out == prev.push(last));
        } else {
            assert(out == prev);
        }
        if exists|k: int|
            0 <= k < kids.len() && (#[trigger] kids[k]).0 == name && child_status(
                rules,
                subpaths,
                child_path(path, name),
            ) == act {
            let k = choose|k: int|
                0 <= k < kids.len() && (#[trigger] kids[k]).0 == name && child_status(
                    rules,
                    subpaths,
                    child_path(path, name),
                ) == act;
            if k < init.len() {
                assert(init[k] == kids[k]);
                let j = choose|j: int| 0 <= j < prev.len() && prev[j] == name;
                if hit {
                    assert(out[j] == name);
                }
            } else {
                assert(out[out.len() - 1] == name);
            }
        }
        if out.contains(name) {
            let j = choose|j: int| 0 <= j < out.len() && out[j] == name;
            if hit && j == prev.len() {
                assert(kids[kids.len() - 1].0 == name);
            } else {
                assert(prev[j] == name);
                let k = choose|k: int|
                    0 <= k < init.len() && (#[trigger] init[k]).0 == name && child_status(
                        rules,
                        subpaths,
                        child_path(path, name),
                    ) == act;
                assert(kids[k] == init[k]);
            }
        }
    }
}

/// A field that a rule requires, and that no removing rule names, is among
/// the required fields of the narrowed node, so generation always gives it.
pub proof fn law_required_kept(node: Schema, path: Seq<char>, rules: Seq<FieldRule>, name: Seq<char>)
    requires
        constrained(node, path, rules) is Ok,
        names(children(node)).contains(name),
        some_grant(rules, rules.len() as int, leaf_paths(path, node), child_path(path, name), true),
        !exists|i: int| 0 <= i < rules.len() && rule_removes(#[trigger] rules[i], child_path(path, name)),
    ensures
        owner_of(constrained(node, path, rules)->Ok_0).required.contains(name),
{
    let sp = leaf_paths(path, node);
    let kids = children(node);
    let cp = child_path(path, name);
    let n1 = apply_rules(node, path, rules)->Ok_0;
    lemma_apply_rules_shape(node, path, rules);
    let out = constrained_list(kids, path, rules, sp)->Ok_0;
    let req = new_required(rules, path, node);
    let t = rebuilt(n1, out, req);
    assert(owner_of(t).required == req);
    assert(granted(rules, sp, cp) == ChildAction::Required);
    assert(child_status(rules, sp, cp) == ChildAction::Required);
    let k = choose|k: int| 0 <= k < kids.len() && names(kids)[k] == name;
    assert(kids[k].0 == name);
    lemma_names_with(rules, path, sp, kids, ChildAction::Required, name);
    lemma_names_with(rules, path, sp, kids, ChildAction::Forbidden, name);
    let required = names_with(rules, path, sp, kids, ChildAction::Required);
    let gone = names_with(rules, path, sp, kids, ChildAction::Forbidden);
    let all = owner_of(node).required + required;
    let j = choose|j: int| 0 <= j < required.len() && required[j] == name;
    assert(all[owner_of(node).required.len() + j] == name);
    all.lemma_filter_contains_rev(|x: Seq<char>| !gone.contains(x), name);
}

} // verus!
