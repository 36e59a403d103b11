//! The mutator's own generator: it follows a node's enum values and its
//! type only, and gives printable strings, booleans, non-negative integers,
//! arrays within their bounds, and objects.

use vstd::prelude::*;
use crate::generator::gen::{array_bounds, field_index, find_prop, lemma_field_index, lemma_type_names, pick_fields, text_from};
use crate::generator::rand::{Rng, printable_chars};
use crate::json::{Json, JsonValue, json_seq, lemma_array_view, lemma_object_view, member_names, members_view, set_member};
use crate::mutator::rand::{gen_printable_string, gen_range, rand_i64};
use crate::schema::{K8sResourceSpec, Schema, is_array, is_object, lemma_view_fields, names, prop_views};
use crate::text::str_eq;

verus! {

/// A value of a primitive type as this generator makes it: printable text
/// of one to twenty-four characters, a boolean, or an integer from zero up
/// to, not including, `i64::MAX`.
pub open spec fn primitive_fits(v: Json, ty: Seq<char>) -> bool {
    if ty == "string"@ {
        v matches Json::Str(t) && text_from(t, printable_chars(), 1, 25)
    } else if ty == "boolean"@ {
        v is Bool
    } else {
        v matches Json::Int(n) && 0 <= n < i64::MAX
    }
}

/// Whether `v` is a value this generator may give a node with schema `s`:
/// one of its enum values; otherwise, by its type, an object holding every
/// required field and only fields of the schema, each fitting in turn
/// (`null` when the schema has no fields at all), an array whose length is
/// within its bounds and whose elements fit the element
/// schema (objects) or its type (other elements), or a primitive value.
pub open spec fn fits(v: Json, s: Schema) -> bool
    decreases s,
{
    if s.enum_values.len() > 0 {
        s.enum_values.contains(v)
    } else if is_object(s) {
        match v {
            Json::Null => s.required.len() == 0 && s.properties.len() == 0,
            Json::Object(m) => {
                &&& member_names(m).no_duplicates()
                &&& forall|r: int|
                    0 <= r < s.required.len() ==> member_names(m).contains(#[trigger] s.required[r])
                &&& forall|i: int|
                    0 <= i < m.len() ==> {
                        let k = field_index(s.properties, (#[trigger] m[i]).0);
                        0 <= k < s.properties.len() && fits(m[i].1, s.properties[k].1)
                    }
            },
            _ => false,
        }
    } else if is_array(s) {
        match v {
            Json::Array(a) => {
                &&& s.items is Some
                &&& array_bounds(s).0 <= a.len() <= array_bounds(s).1
                &&& forall|i: int|
                    0 <= i < a.len() ==> {
                        &&& is_object(*s.items->0) ==> fits(#[trigger] a[i], *s.items->0)
                        &&& !is_object(*s.items->0) ==> primitive_fits(a[i], s.items->0.ty)
                    }
            },
            _ => false,
        }
    } else if s.ty == "string"@ || s.ty == "boolean"@ || s.ty == "integer"@ {
        primitive_fits(v, s.ty)
    } else {
        false
    }
}

/// Whether this generator can walk the schema without failing on its
/// shape: every node without enum values is an object, an array, a string,
/// a boolean or an integer; objects have distinct field names and require
/// only fields they have; arrays have sound bounds and an element schema
/// that is an object it can walk or a primitive type.
pub open spec fn walkable(s: Schema) -> bool
    decreases s,
{
    s.enum_values.len() == 0 ==> {
        &&& (is_object(s) || is_array(s) || s.ty == "string"@ || s.ty == "boolean"@ || s.ty == "integer"@)
        &&& (is_object(s) ==> {
            &&& names(s.properties).no_duplicates()
            &&& s.properties.len() < usize::MAX
            &&& forall|r: int| 0 <= r < s.required.len() ==> names(s.properties).contains(#[trigger] s.required[r])
            &&& forall|k: int| 0 <= k < s.properties.len() ==> walkable(#[trigger] s.properties[k].1)
        })
        &&& (is_array(s) ==> {
            &&& s.items is Some
            &&& array_bounds(s).0 <= array_bounds(s).1 < usize::MAX
            &&& (is_object(*s.items->0) || s.items->0.ty == "string"@ || s.items->0.ty == "boolean"@
                || s.items->0.ty == "integer"@)
            &&& (is_object(*s.items->0) ==> walkable(*s.items->0))
        })
    }
}

/// Printable text of one to twenty-four characters.
fn gen_string(rng: &mut Rng) -> (r: JsonValue)
    ensures
        primitive_fits(r@, "string"@),
{
    proof {
        lemma_type_names();
    }
    let len = gen_range(rng, 1, 25);
    JsonValue::Str(gen_printable_string(rng, len))
}

/// A random boolean.
fn gen_bool(rng: &mut Rng) -> (r: JsonValue)
    ensures
        primitive_fits(r@, "boolean"@),
{
    proof {
        lemma_type_names();
    }
    JsonValue::Bool(gen_range(rng, 0, 2) == 1)
}

/// A random integer from zero up to, not including, `i64::MAX`.
fn gen_int(rng: &mut Rng) -> (r: JsonValue)
    ensures
        primitive_fits(r@, "integer"@),
{
    proof {
        lemma_type_names();
    }
    JsonValue::Int(rand_i64(rng))
}

/// A random array: a count of elements drawn within the array's bounds,
/// each by the element schema's type.
fn gen_array(rng: &mut Rng, spec: &K8sResourceSpec) -> (r: JsonValue)
    requires
        is_array(spec@),
        spec@.enum_values.len() == 0,
        walkable(spec@),
    ensures
        fits(r@, spec@),
    decreases spec, 0nat,
{
    proof {
        lemma_view_fields(*spec);
        lemma_type_names();
    }
    let items: &K8sResourceSpec = match &spec.items {
        Some(b) => b,
        None => {
            return JsonValue::Null;
        },
    };
    proof {
        lemma_view_fields(*items);
        assert(spec@.items == Some(Box::new(items@)));
        assert(decreases_to!(*spec => spec.items));
        assert(decreases_to!(*spec => *items));
        assert(array_bounds(spec@) == match spec.minmax {
            Some(mm) => mm,
            None => (1usize, 20usize),
        });
    }
    let (min, max) = match spec.minmax {
        Some(mm) => mm,
        None => (1, 20),
    };
    let count = gen_range(rng, min, max + 1);
    let obj = str_eq(items._type.as_str(), "object");
    let string = str_eq(items._type.as_str(), "string");
    let boolean = str_eq(items._type.as_str(), "boolean");
    let mut arr: Vec<JsonValue> = Vec::new();
    let mut i: usize = 0;
    while i < count
        invariant
            i <= count,
            arr@.len() == i,
            obj == is_object(items@),
            string == (items@.ty == "string"@),
            boolean == (items@.ty == "boolean"@),
            is_object(items@) ==> walkable(items@),
            is_object(items@) || items@.ty == "string"@ || items@.ty == "boolean"@ || items@.ty == "integer"@,
            decreases_to!(*spec => *items),
            forall|k: int|
                0 <= k < i ==> {
                    &&& is_object(items@) ==> fits(#[trigger] arr@[k]@, items@)
                    &&& !is_object(items@) ==> primitive_fits(arr@[k]@, items@.ty)
                },
        decreases count - i,
    {
        let v = if obj {
            gen_property(rng, items)
        } else if string {
            gen_string(rng)
        } else if boolean {
            gen_bool(rng)
        } else {
            gen_int(rng)
        };
        arr.push(v);
        i = i + 1;
    }
    proof {
        lemma_array_view(arr);
        let a = json_seq(arr@);
        assert(forall|k: int| 0 <= k < a.len() ==> a[k] == arr@[k]@);
    }
    JsonValue::Array(arr)
}

/// A random value for a node with schema `spec` (see [`fits`]).
pub fn gen_property(rng: &mut Rng, spec: &K8sResourceSpec) -> (r: JsonValue)
    requires
        walkable(spec@),
    ensures
        fits(r@, spec@),
    decreases spec, 1nat,
{
    proof {
        lemma_view_fields(*spec);
        lemma_type_names();
    }
    let n = spec._enum.len();
    if n > 0 {
        let i = gen_range(rng, 0, n);
        let v = spec._enum[i].deep_copy();
        proof {
            assert(json_seq(spec._enum@)[i as int] == spec._enum@[i as int]@);
        }
        return v;
    }
    if str_eq(spec._type.as_str(), "object") {
        return gen_object(rng, spec);
    }
    if str_eq(spec._type.as_str(), "string") {
        return gen_string(rng);
    }
    if str_eq(spec._type.as_str(), "boolean") {
        return gen_bool(rng);
    }
    if str_eq(spec._type.as_str(), "array") {
        return gen_array(rng, spec);
    }
    gen_int(rng)
}

/// A random object: every required field, and a random, shuffled choice of
/// the other fields (at least one when nothing is required), each generated
/// from its own schema.
fn gen_object(rng: &mut Rng, spec: &K8sResourceSpec) -> (r: JsonValue)
    requires
        walkable(spec@),
        is_object(spec@),
        spec@.enum_values.len() == 0,
    ensures
        fits(r@, spec@),
    decreases spec, 0nat,
{
    proof {
        lemma_view_fields(*spec);
        lemma_type_names();
    }
    let ghost sv = spec@;
    let ghost pnames = names(sv.properties);
    let props = &spec.properties;
    let to_generate = pick_fields(rng, spec);
    let nreq = spec.required.len();
    let ng = to_generate.len();
    let mut members: Vec<(String, JsonValue)> = Vec::new();
    let mut g: usize = 0;
    while g < ng
        invariant
            ng == to_generate@.len(),
            sv == spec@,
            sv.properties == prop_views(props@),
            *props == spec.properties,
            pnames == names(sv.properties),
            walkable(sv),
            is_object(sv),
            sv.enum_values.len() == 0,
            g <= ng,
            forall|q: int| 0 <= q < ng ==> pnames.contains(#[trigger] to_generate@[q]@),
            forall|q: int| 0 <= q < nreq && nreq <= ng ==> (#[trigger] to_generate@[q])@ == sv.required[q],
            nreq <= ng,
            member_names(members_view(members@)).no_duplicates(),
            forall|q: int| 0 <= q < g ==> member_names(members_view(members@)).contains(#[trigger] to_generate@[q]@),
            forall|i: int|
                0 <= i < members@.len() ==> {
                    let k = field_index(sv.properties, (#[trigger] members_view(members@)[i]).0);
                    0 <= k < sv.properties.len() && fits(members_view(members@)[i].1, sv.properties[k].1)
                },
        decreases ng - g,
    {
        let name = to_generate[g].clone();
        let idx = find_prop(props, name.as_str());
        let idx = match idx {
            Some(i) => i,
            None => {
                proof {
                    assert(pnames.contains(to_generate@[g as int]@));
                    assert(names(prop_views(props@)).contains(name@));
                }
                return JsonValue::Null;
            },
        };
        proof {
            broadcast use vstd::std_specs::vec::group_vec_axioms;
            assert(sv.properties[idx as int] == (props@[idx as int].0@, props@[idx as int].1@));
            assert(walkable(sv.properties[idx as int].1));
            assert(walkable(props@[idx as int].1@));
            assert(decreases_to!(*spec => spec.properties));
            assert(decreases_to!(spec.properties => spec.properties[idx as int]));
            assert(decreases_to!(spec.properties[idx as int] => spec.properties[idx as int].1));
            assert(decreases_to!(*spec => spec.properties[idx as int].1));
            assert(spec.properties[idx as int].1 == props@[idx as int].1);
        }
        let v = gen_property(rng, &props[idx].1);
        let ghost before = members_view(members@);
        let ghost pair = (name@, v@);
        set_member(&mut members, name, v);
        proof {
            let after = members_view(members@);
            assert forall|q: int| 0 <= q < g + 1 implies member_names(after).contains(#[trigger] to_generate@[q]@) by {
                if q == g {
                    let i = choose|i: int| 0 <= i < after.len() && after[i] == pair;
                    assert(member_names(after)[i] == pair.0);
                } else {
                    let i = choose|i: int| 0 <= i < before.len() && member_names(before)[i] == to_generate@[q]@;
                    if before[i].0 == pair.0 {
                        let i2 = choose|i2: int| 0 <= i2 < after.len() && after[i2] == pair;
                        assert(member_names(after)[i2] == pair.0);
                    } else {
                        assert(after.contains(before[i]));
                        let i2 = choose|i2: int| 0 <= i2 < after.len() && after[i2] == before[i];
                        assert(member_names(after)[i2] == to_generate@[q]@);
                    }
                }
            }
            lemma_field_index(sv.properties, idx as int);
            assert forall|i: int| 0 <= i < members@.len() implies {
                let k = field_index(sv.properties, (#[trigger] members_view(members@)[i]).0);
                0 <= k < sv.properties.len() && fits(members_view(members@)[i].1, sv.properties[k].1)
            } by {
                if after[i] == pair {
                    assert(sv.properties[idx as int].0 == pair.0);
                } else {
                    assert(before.contains(after[i]));
                    let i0 = choose|i0: int| 0 <= i0 < before.len() && before[i0] == after[i];
                }
            }
        }
        g = g + 1;
    }
    if ng == 0 {
        return JsonValue::Null;
    }
    proof {
        lemma_object_view(members);
        let m = members_view(members@);
        assert forall|r: int| 0 <= r < sv.required.len() implies member_names(m).contains(
            #[trigger] sv.required[r],
        ) by {
            assert(to_generate@[r]@ == sv.required[r]);
        }
        assert(member_names(m).no_duplicates());
        assert forall|i: int| 0 <= i < m.len() implies {
            let k = field_index(sv.properties, (#[trigger] m[i]).0);
            0 <= k < sv.properties.len() && fits(m[i].1, sv.properties[k].1)
        } by {
            assert(members_view(members@)[i] == m[i]);
        }
    }
    JsonValue::Object(members)
}


/// A random resource for the schema `spec`.
pub fn gen_resource(rng: &mut Rng, spec: &K8sResourceSpec) -> (r: JsonValue)
    requires
        walkable(spec@),
    ensures
        fits(r@, spec@),
{
    gen_property(rng, spec)
}

} // verus!
