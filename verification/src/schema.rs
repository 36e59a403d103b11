//! The schema of a Kubernetes resource, as read from its JSON schema file and
//! then narrowed by a constraint configuration.

use vstd::prelude::*;
use crate::json::{Json, JsonValue, json_seq};
use crate::conf::str_seq;
use crate::paths::{child_path, join_child};
use crate::text::str_eq;

verus! {

/// The schema of one field of a resource (or of the resource itself).
#[derive(Debug)]
pub struct K8sResourceSpec {
    /// The JSON type: `object`, `array`, `string`, `integer`, `number` or
    /// `boolean`.
    pub _type: String,
    /// The fields of an object, each with its name; names are distinct.
    pub properties: Vec<(String, K8sResourceSpec)>,
    /// Values to choose from, if the field has an enum.
    pub _enum: Vec<JsonValue>,
    /// Regular expressions that generate values.
    pub _enum_regex: Vec<String>,
    /// The names of the fields that are always generated.
    pub required: Vec<String>,
    /// Bounds on the number of elements of an array.
    pub minmax: Option<(usize, usize)>,
    /// The schema of an array's elements.
    pub items: Option<Box<K8sResourceSpec>>,
    /// The value format, such as `int32`, `int64` or `date-time`.
    pub format: Option<String>,
    /// Whether the field holds a Kubernetes quantity such as `500m`.
    pub is_quant: bool,
    /// The schema of the values of a map-like object.
    pub additional_properties: Option<Box<K8sResourceSpec>>,
    /// `group.version.kind` of the resource, set on the root.
    pub gvk: Option<String>,
    /// The API group of the resource (none for the core group), set on the root.
    pub group: Option<String>,
    /// The API version of the resource, set on the root.
    pub version: Option<String>,
    /// The kind of the resource, set on the root.
    pub kind: Option<String>,
}

/// The mathematical value of a [`K8sResourceSpec`].
pub struct Schema {
    pub ty: Seq<char>,
    pub properties: Seq<(Seq<char>, Schema)>,
    pub enum_values: Seq<Json>,
    pub enum_regex: Seq<Seq<char>>,
    pub required: Seq<Seq<char>>,
    pub minmax: Option<(usize, usize)>,
    pub items: Option<Box<Schema>>,
    pub format: Option<Seq<char>>,
    pub is_quant: bool,
    pub additional_properties: Option<Box<Schema>>,
    pub gvk: Option<Seq<char>>,
    pub group: Option<Seq<char>>,
    pub version: Option<Seq<char>>,
    pub kind: Option<Seq<char>>,
}

/// The view of an optional string.
pub open spec fn opt_str(s: Option<String>) -> Option<Seq<char>> {
    match s {
        Some(t) => Some(t@),
        None => None,
    }
}

/// The mathematical value of `s`.
pub open spec fn schema_view(s: K8sResourceSpec) -> Schema
    decreases s,
{
    Schema {
        ty: s._type@,
        properties: Seq::new(
            s.properties@.len(),
            |i: int|
                if 0 <= i < s.properties@.len() {
                    (s.properties@[i].0@, schema_view(s.properties@[i].1))
                } else {
                    (Seq::<char>::empty(), arbitrary())
                },
        ),
        enum_values: json_seq(s._enum@),
        enum_regex: str_seq(s._enum_regex@),
        required: str_seq(s.required@),
        minmax: s.minmax,
        items: match s.items {
            Some(b) => Some(Box::new(schema_view(*b))),
            None => None,
        },
        format: opt_str(s.format),
        is_quant: s.is_quant,
        additional_properties: match s.additional_properties {
            Some(b) => Some(Box::new(schema_view(*b))),
            None => None,
        },
        gvk: opt_str(s.gvk),
        group: opt_str(s.group),
        version: opt_str(s.version),
        kind: opt_str(s.kind),
    }
}

impl View for K8sResourceSpec {
    type V = Schema;

    open spec fn view(&self) -> Schema {
        schema_view(*self)
    }
}

/// The names of a list of named schemas.
pub open spec fn names(props: Seq<(Seq<char>, Schema)>) -> Seq<Seq<char>> {
    Seq::new(props.len(), |i: int| props[i].0)
}

/// Whether the node is an array.
pub open spec fn is_array(s: Schema) -> bool {
    s.ty == "array"@
}

/// Whether the node is an object.
pub open spec fn is_object(s: Schema) -> bool {
    s.ty == "object"@
}

/// A node without fields and without an element schema.
pub open spec fn is_leaf(s: Schema) -> bool {
    s.properties.len() == 0 && s.items is None
}

/// The named children of a node: the fields of an array's elements, or the
/// node's own fields. The element level of an array has no path segment of
/// its own.
pub open spec fn children(s: Schema) -> Seq<(Seq<char>, Schema)> {
    if is_array(s) && s.items is Some {
        s.items->0.properties
    } else {
        s.properties
    }
}

/// The paths of all leaves below `path`, depth first, children in order.
pub open spec fn leaf_paths(path: Seq<char>, s: Schema) -> Seq<Seq<char>>
    decreases s, 1nat,
{
    if is_leaf(s) {
        seq![path]
    } else {
        leaf_paths_list(path, children(s))
    }
}

/// The leaf paths below each of the named children, in order.
pub open spec fn leaf_paths_list(path: Seq<char>, kids: Seq<(Seq<char>, Schema)>) -> Seq<
    Seq<char>,
>
    decreases kids, 0nat,
{
    if kids.len() == 0 {
        Seq::empty()
    } else {
        leaf_paths_list(path, kids.drop_last()) + leaf_paths(
            child_path(path, kids.last().0),
            kids.last().1,
        )
    }
}

/// Structural soundness of a schema tree, as the constraining and the
/// generation code need it: a node with fields or an element schema is an
/// object or an array, field names are
/// distinct and hold no dot, and the same holds all the way down.
pub open spec fn schema_wf(s: Schema) -> bool
    decreases s,
{
    &&& (!is_leaf(s) ==> is_array(s) || is_object(s))
    &&& names(s.properties).no_duplicates()
    &&& (forall|i: int| 0 <= i < s.properties.len() ==> !(#[trigger] s.properties[i]).0.contains('.'))
    &&& (forall|i: int| 0 <= i < s.properties.len() ==> schema_wf(#[trigger] s.properties[i].1))
    &&& (s.items matches Some(b) ==> schema_wf(*b))
}

/// The view of a node's fields, one by one.
pub proof fn lemma_properties_view(s: K8sResourceSpec, i: int)
    requires
        0 <= i < s.properties@.len(),
    ensures
        s@.properties.len() == s.properties@.len(),
        s@.properties[i] == (s.properties@[i].0@, s.properties@[i].1@),
{
}

/// The named children of a node (see [`children`]).
pub fn child_fields(spec: &K8sResourceSpec) -> (kids: &Vec<(String, K8sResourceSpec)>)
    requires
        schema_wf(spec@),
    ensures
        kids@.len() == children(spec@).len(),
        forall|k: int| 0 <= k < kids@.len() ==> #[trigger] children(spec@)[k] == (kids@[k].0@, kids@[k].1@),
        forall|k: int| 0 <= k < kids@.len() ==> schema_wf(#[trigger] kids@[k].1@),
        forall|k: int| 0 <= k < kids@.len() ==> decreases_to!(*spec => #[trigger] kids@[k].1),
        forall|k: int| 0 <= k < kids@.len() ==> !(#[trigger] kids@[k].0@).contains('.'),
        forall|k: int, l: int| 0 <= k < l < kids@.len() ==> #[trigger] kids@[k].0@ != #[trigger] kids@[l].0@,
{
    let array = str_eq(spec._type.as_str(), "array");
    let kids: &Vec<(String, K8sResourceSpec)> = if array {
        match &spec.items {
            Some(b) => &b.properties,
            None => &spec.properties,
        }
    } else {
        &spec.properties
    };
    proof {
        let ghost owner: K8sResourceSpec = if array && spec.items is Some {
            *spec.items.unwrap()
        } else {
            *spec
        };
        assert(*kids == owner.properties);
        assert(children(spec@) == owner@.properties);
        assert(schema_wf(owner@));
        assert forall|k: int| 0 <= k < kids@.len() implies #[trigger] children(spec@)[k] == (
            kids@[k].0@,
            kids@[k].1@,
        ) by {
            lemma_properties_view(owner, k);
        }
        assert forall|k: int| 0 <= k < kids@.len() implies schema_wf(#[trigger] kids@[k].1@) by {
            lemma_properties_view(owner, k);
            assert(schema_wf(owner@.properties[k].1));
        }
        assert forall|k: int| 0 <= k < kids@.len() implies !(#[trigger] kids@[k].0@).contains('.') by {
            lemma_properties_view(owner, k);
            assert(!owner@.properties[k].0.contains('.'));
        }
        assert forall|k: int, l: int| 0 <= k < l < kids@.len() implies #[trigger] kids@[k].0@ != #[trigger] kids@[l].0@ by {
            lemma_properties_view(owner, k);
            lemma_properties_view(owner, l);
            assert(names(owner@.properties)[k] == kids@[k].0@);
            assert(names(owner@.properties)[l] == kids@[l].0@);
        }
        assert forall|k: int| 0 <= k < kids@.len() implies decreases_to!(*spec => #[trigger] kids@[k].1) by {
            broadcast use vstd::std_specs::vec::group_vec_axioms;
            assert(decreases_to!(owner.properties => owner.properties[k]));
            if array && spec.items is Some {
                assert(decreases_to!(*spec => spec.items));
                assert(decreases_to!(*spec => owner));
            }
        }
    }
    kids
}

/// Appends to `fullpaths` the path of every leaf below `curpath`.
pub fn iter_all_children(curpath: &str, curspec: &K8sResourceSpec, fullpaths: &mut Vec<String>)
    requires
        schema_wf(curspec@),
    ensures
        final(fullpaths).deep_view() == old(fullpaths).deep_view() + leaf_paths(curpath@, curspec@),
    decreases curspec,
{
    if curspec.properties.len() == 0 && curspec.items.is_none() {
        fullpaths.push(crate::text::owned(curpath));
        proof {
            assert(final(fullpaths).deep_view() =~= old(fullpaths).deep_view() + seq![curpath@]);
        }
        return;
    }
    let kids = child_fields(curspec);
    let ghost kids_view = children(curspec@);
    let n = kids.len();
    let mut i: usize = 0;
    while i < n
        invariant
            n == kids@.len(),
            i <= n,
            kids_view.len() == n,
            forall|k: int| 0 <= k < n ==> #[trigger] kids_view[k] == (kids@[k].0@, kids@[k].1@),
            forall|k: int| 0 <= k < n ==> schema_wf(#[trigger] kids@[k].1@),
            forall|k: int| 0 <= k < n ==> decreases_to!(*curspec => #[trigger] kids@[k].1),
            fullpaths.deep_view() == old(fullpaths).deep_view() + leaf_paths_list(
                curpath@,
                kids_view.take(i as int),
            ),
        decreases n - i,
    {
        let childpath = join_child(curpath, kids[i].0.as_str());
        proof {
            assert(kids_view.take(i + 1).drop_last() =~= kids_view.take(i as int));
            assert(kids_view.take(i + 1).last() == kids_view[i as int]);
        }
        iter_all_children(childpath.as_str(), &kids[i].1, fullpaths);
        proof {
            assert(fullpaths.deep_view() =~= old(fullpaths).deep_view() + leaf_paths_list(
                curpath@,
                kids_view.take(i + 1),
            ));
        }
        i = i + 1;
    }
    proof {
        assert(kids_view.take(n as int) =~= kids_view);
    }
}

/// The views of a list of named schemas.
pub open spec fn prop_views(props: Seq<(String, K8sResourceSpec)>) -> Seq<(Seq<char>, Schema)> {
    Seq::new(props.len(), |i: int| (props[i].0@, props[i].1@))
}

/// The view of a node's fields and required names.
pub proof fn lemma_view_fields(s: K8sResourceSpec)
    ensures
        s@.properties == prop_views(s.properties@),
        s@.required == str_seq(s.required@),
{
    assert(s@.properties =~= prop_views(s.properties@));
}

/// The node that holds the named children: an array's element schema, or
/// the node itself.
pub open spec fn owner_node(s: K8sResourceSpec) -> K8sResourceSpec {
    if s._type@ == "array"@ && s.items is Some {
        *s.items->0
    } else {
        s
    }
}

/// The fields of the node that holds the children are the children, each
/// sound and below the node.
pub proof fn lemma_owner(s: K8sResourceSpec)
    requires
        schema_wf(s@),
    ensures
        prop_views(owner_node(s).properties@) == children(s@),
        s@.properties == prop_views(s.properties@),
        owner_node(s)@ == crate::constrain::owner_of(s@),
        forall|k: int|
            0 <= k < owner_node(s).properties@.len() ==> schema_wf(
                #[trigger] owner_node(s).properties@[k].1@,
            ),
        decreases_to!(s => owner_node(s).properties),
        s._type@ == "array"@ && s.items is Some ==> decreases_to!(s => *s.items->0),
{
    let o = owner_node(s);
    assert(s@.properties =~= prop_views(s.properties@));
    if s._type@ == "array"@ && s.items is Some {
        assert(s@.items == Some(Box::new(o@)));
        assert(o@.properties =~= prop_views(o.properties@));
        assert(decreases_to!(s => s.items));
    } else {
        assert(o@.properties =~= prop_views(o.properties@));
    }
    assert forall|k: int| 0 <= k < o.properties@.len() implies schema_wf(#[trigger] o.properties@[k].1@) by {
        lemma_properties_view(o, k);
        assert(schema_wf(o@));
        assert(schema_wf(o@.properties[k].1));
    }
}

/// Whether the names of `props` are distinct and hold no dot.
fn names_ok(props: &Vec<(String, K8sResourceSpec)>) -> (b: bool)
    ensures
        b == (names(prop_views(props@)).no_duplicates() && forall|i: int|
            0 <= i < props@.len() ==> !(#[trigger] props@[i]).0@.contains('.')),
{
    let n = props.len();
    let ghost nm = names(prop_views(props@));
    let mut i: usize = 0;
    while i < n
        invariant
            n == props@.len(),
            nm == names(prop_views(props@)),
            i <= n,
            forall|a: int, b: int| 0 <= a < b < i ==> nm[a] != nm[b],
            forall|a: int| 0 <= a < i ==> !(#[trigger] props@[a]).0@.contains('.'),
        decreases n - i,
    {
        if crate::text::contains(props[i].0.as_str(), ".") {
            proof {
                reveal_strlit(".");
                let w = choose|w: int| crate::text::occurs_at(props@[i as int].0@, "."@, w);
                assert(props@[i as int].0@.subrange(w, w + 1)[0] == '.');
                assert(props@[i as int].0@[w] == '.');
            }
            return false;
        }
        proof {
            reveal_strlit(".");
            assert forall|w: int| 0 <= w < props@[i as int].0@.len() implies props@[i as int].0@[w] != '.' by {
                if props@[i as int].0@[w] == '.' {
                    assert(props@[i as int].0@.subrange(w, w + 1) =~= "."@);
                    assert(crate::text::occurs_at(props@[i as int].0@, "."@, w));
                }
            }
        }
        let mut j: usize = 0;
        while j < i
            invariant
                n == props@.len(),
                nm == names(prop_views(props@)),
                i < n,
                j <= i,
                forall|a: int| 0 <= a < j ==> nm[a] != nm[i as int],
            decreases i - j,
        {
            if str_eq(props[j].0.as_str(), props[i].0.as_str()) {
                proof {
                    assert(nm[j as int] == props@[j as int].0@);
                    assert(nm[i as int] == props@[i as int].0@);
                    assert(nm[j as int] == nm[i as int]);
                }
                return false;
            }
            j = j + 1;
        }
        i = i + 1;
    }
    true
}

/// Whether a schema tree is sound in the sense of [`schema_wf`].
pub fn check_schema(spec: &K8sResourceSpec) -> (b: bool)
    ensures
        b == schema_wf(spec@),
    decreases spec,
{
    proof {
        lemma_view_fields(*spec);
    }
    let array = str_eq(spec._type.as_str(), "array");
    let object = str_eq(spec._type.as_str(), "object");
    if (spec.properties.len() > 0 || spec.items.is_some()) && !array && !object {
        return false;
    }
    if !names_ok(&spec.properties) {
        proof {
            if names(spec@.properties).no_duplicates() {
                let i = choose|i: int|
                    0 <= i < spec.properties@.len() && (#[trigger] spec.properties@[i]).0@.contains('.');
                assert(spec@.properties[i].0 == spec.properties@[i].0@);
            }
        }
        return false;
    }
    let n = spec.properties.len();
    let mut i: usize = 0;
    while i < n
        invariant
            n == spec.properties@.len(),
            spec@.properties == prop_views(spec.properties@),
            i <= n,
            forall|k: int| 0 <= k < i ==> schema_wf(#[trigger] spec.properties@[k].1@),
        decreases n - i,
    {
        proof {
            broadcast use vstd::std_specs::vec::group_vec_axioms;
            assert(decreases_to!(spec.properties => spec.properties[i as int]));
        }
        if !check_schema(&spec.properties[i].1) {
            proof {
                assert(spec@.properties[i as int].1 == spec.properties@[i as int].1@);
            }
            return false;
        }
        i = i + 1;
    }
    proof {
        assert forall|k: int| 0 <= k < spec@.properties.len() implies schema_wf(#[trigger] spec@.properties[k].1) by {
            assert(spec@.properties[k].1 == spec.properties@[k].1@);
        }
        assert forall|k: int| 0 <= k < spec@.properties.len() implies !(#[trigger] spec@.properties[k]).0.contains('.') by {
            assert(spec@.properties[k].0 == spec.properties@[k].0@);
        }
    }
    match &spec.items {
        Some(b) => check_schema(b),
        None => true,
    }
}

/// Whether the fields' names are distinct.
pub fn distinct_names(props: &Vec<(String, K8sResourceSpec)>) -> (b: bool)
    ensures
        b == names(prop_views(props@)).no_duplicates(),
{
    let n = props.len();
    let ghost nm = names(prop_views(props@));
    let mut i: usize = 0;
    while i < n
        invariant
            n == props@.len(),
            nm == names(prop_views(props@)),
            i <= n,
            forall|a: int, b: int| 0 <= a < b < i ==> nm[a] != nm[b],
        decreases n - i,
    {
        let mut j: usize = 0;
        while j < i
            invariant
                n == props@.len(),
                nm == names(prop_views(props@)),
                i < n,
                j <= i,
                forall|a: int| 0 <= a < j ==> nm[a] != nm[i as int],
            decreases i - j,
        {
            if str_eq(props[j].0.as_str(), props[i].0.as_str()) {
                proof {
                    assert(nm[j as int] == props@[j as int].0@);
                    assert(nm[i as int] == props@[i as int].0@);
                }
                return false;
            }
            j = j + 1;
        }
        i = i + 1;
    }
    true
}

} // verus!
