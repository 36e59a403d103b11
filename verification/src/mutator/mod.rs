//! Mutating existing resources within a narrowed schema.

pub mod rand;
pub mod gen;


use vstd::prelude::*;
use crate::generator::gen::{
    GenError, enum_pick, field_index, find_prop, lemma_field_index_name, gen_bool, gen_property, gen_string, generatable, has_enum,
    holds, lemma_field_index, lemma_type_names, name_pattern, patterns_ok, quantity_pattern,
    rand_enum_val, string_fits, string_kind, drawn_string, text_from, StringKind, conforms,
};
use crate::generator::rand::{
    printable_chars, Draw, RngState, range_draw, range_state, reordered, xorshift_shuffle, xorshift_uniform, Rng, chance, gen_printable_string, gen_range, gen_range_usize, rand_int, rand_int_i32,
    pattern_usable, rand_str_regex, shuffle,
};
use crate::json::{
    Json, JsonValue, json_seq, lemma_array_view, lemma_object_view, member_names, members_view,
};
use crate::paths::{child_path, join_child};
use crate::schema::{K8sResourceSpec, Schema, is_array, is_object, lemma_view_fields, names, prop_views};
use crate::text::{owned, push_char, push_str, str_eq};

verus! {

/// Whether a number field's format is one the mutator knows: none, `int32`
/// or `int64`.
pub open spec fn int_format_ok(s: Schema) -> bool {
    s.format is None || s.format == Some("int32"@) || s.format == Some("int64"@)
}

/// The paths the mutator never touches: the resource's `apiVersion`,
/// `kind`, `metadata` and `metadata.name`.
pub open spec fn protected(path: Seq<char>) -> bool {
    path == "$.apiVersion"@ || path == "$.kind"@ || path == "$.metadata"@ || path == "$.metadata.name"@
}

/// Whether mutating the value `v` of a field with schema `s` at `path`
/// cannot fail on its shape: booleans and strings always can be mutated,
/// integers when their format is known; an array when its schema is an
/// array schema that can be generated from, it is not empty, and its
/// elements can be mutated with the element schema; an object when its
/// schema can be generated from and, unless the schema has values of its
/// own (which replace the object), each member can be mutated with its
/// field's schema (members without a field, and protected ones, are left
/// alone). `null` and numbers that are not `i64` cannot be mutated.
pub open spec fn value_mutable(v: Json, s: Schema, path: Seq<char>) -> bool
    decreases s,
{
    match v {
        Json::Bool(_) => true,
        Json::Int(_) => int_format_ok(s),
        Json::Number(_) => int_format_ok(s),
        Json::Str(_) => true,
        Json::Array(a) => {
            &&& generatable(s)
            &&& is_array(s)
            &&& !has_enum(s)
            &&& s.items is Some
            &&& a.len() > 0
            &&& forall|i: int| 0 <= i < a.len() ==> value_mutable(#[trigger] a[i], *s.items->0, path)
        },
        Json::Object(m) => {
            &&& generatable(s)
            &&& !has_enum(s) ==> {
                &&& is_object(s)
                &&& forall|i: int|
                    0 <= i < m.len() ==> {
                        let k = field_index(s.properties, (#[trigger] m[i]).0);
                        protected(child_path(path, m[i].0)) || k < 0 || (k < s.properties.len()
                            && value_mutable(m[i].1, s.properties[k].1, child_path(path, m[i].0)))
                    }
            }
        },
        _ => false,
    }
}

/// Whether `mutate_object` can mutate `v` with schema `s` at `path`: a
/// schema with values of its own replaces any value; otherwise `v` is an
/// object that can be mutated.
pub open spec fn object_mutable(v: Json, s: Schema, path: Seq<char>) -> bool {
    &&& generatable(s)
    &&& (has_enum(s) || (v is Object && value_mutable(v, s, path)))
}

/// Whether every number in `v` is an `i64`.
pub open spec fn integral(v: Json) -> bool
    decreases v,
{
    match v {
        Json::Number(_) => false,
        Json::Array(a) => forall|i: int| 0 <= i < a.len() ==> integral(#[trigger] a[i]),
        Json::Object(m) => forall|i: int| 0 <= i < m.len() ==> integral(#[trigger] m[i].1),
        _ => true,
    }
}

/// Members the schema has no field for never keep an object from being
/// mutated (they are left as they are): an object made of members of a
/// mutable object and of members whose names are not fields of the schema
/// is mutable too.
pub proof fn law_unknown_members_ignored(
    m: Seq<(Seq<char>, Json)>,
    m2: Seq<(Seq<char>, Json)>,
    s: Schema,
    path: Seq<char>,
)
    requires
        object_mutable(Json::Object(m), s, path),
        forall|i: int|
            0 <= i < m2.len() ==> m.contains(#[trigger] m2[i]) || !names(s.properties).contains(m2[i].0),
    ensures
        object_mutable(Json::Object(m2), s, path),
{
    if !has_enum(s) {
        assert forall|i: int| 0 <= i < m2.len() implies {
            let k = field_index(s.properties, (#[trigger] m2[i]).0);
            protected(child_path(path, m2[i].0)) || k < 0 || (k < s.properties.len() && value_mutable(
                m2[i].1,
                s.properties[k].1,
                child_path(path, m2[i].0),
            ))
        } by {
            if m.contains(m2[i]) {
                let j = choose|j: int| 0 <= j < m.len() && m[j] == m2[i];
                lemma_object_member(m, s, path, j);
            } else {
                crate::generator::gen::lemma_field_index_name(s.properties, m2[i].0);
                let k = field_index(s.properties, m2[i].0);
                if k != -1 {
                    assert(names(s.properties)[k] == m2[i].0);
                }
            }
        }
    }
}

/// Whether `mutate_array` can mutate `v` with schema `s` at `path`.
pub open spec fn array_mutable(v: Json, s: Schema, path: Seq<char>) -> bool {
    v is Array && value_mutable(v, s, path)
}

/// A member of a mutable object can be mutated with its field's schema,
/// unless it is protected or has no field.
proof fn lemma_object_member(m: Seq<(Seq<char>, Json)>, s: Schema, path: Seq<char>, i: int)
    requires
        object_mutable(Json::Object(m), s, path),
        !has_enum(s),
        0 <= i < m.len(),
    ensures
        ({
            let k = field_index(s.properties, m[i].0);
            protected(child_path(path, m[i].0)) || k < 0 || (k < s.properties.len() && value_mutable(
                m[i].1,
                s.properties[k].1,
                child_path(path, m[i].0),
            ))
        }),
{
    let v = Json::Object(m);
    reveal_with_fuel(value_mutable, 2);
    assert(value_mutable(v, s, path));
    assert(v matches Json::Object(mm) && mm == m);
    assert(forall|j: int|
        0 <= j < m.len() ==> {
            let k = field_index(s.properties, (#[trigger] m[j]).0);
            protected(child_path(path, m[j].0)) || k < 0 || (k < s.properties.len() && value_mutable(
                m[j].1,
                s.properties[k].1,
                child_path(path, m[j].0),
            ))
        });
}

/// An element of a mutable array can be mutated with the element schema.
proof fn lemma_array_member(a: Seq<Json>, s: Schema, path: Seq<char>, i: int)
    requires
        value_mutable(Json::Array(a), s, path),
        0 <= i < a.len(),
    ensures
        value_mutable(a[i], *s.items->0, path),
{
    let v = Json::Array(a);
    reveal_with_fuel(value_mutable, 2);
    assert(value_mutable(v, s, path));
    assert(v matches Json::Array(aa) && aa == a);
    assert(forall|j: int| 0 <= j < a.len() ==> value_mutable(#[trigger] a[j], *s.items->0, path));
}

/// How many of an array's `n` elements a mutation keeps: after a draw
/// below `n` and a shuffle of the elements, a second draw below `n` says
/// how many go.
pub open spec fn kept_count(h: RngState, n: nat) -> int {
    n - xorshift_uniform(h.after(Draw::Uniform(0, n as u64)).after(Draw::Shuffle(n)), 0, n as u64)
}

/// The value a string field gets on a generator in state `h`: a quantity
/// field first draws a sample of the quantity pattern; then a draw in
/// `0..3` chooses the empty string, printable text of a length drawn in
/// `1..15`, or a value generated for the field's kind.
pub open spec fn string_mutation(h: RngState, is_quant: bool, kind: StringKind, v: Json) -> bool {
    let h1 = if is_quant {
        h.after(Draw::Sample(quantity_pattern()))
    } else {
        h
    };
    let c = range_draw(h1, 0, 3);
    let h2 = range_state(h1, 0, 3);
    if c == 0 {
        v == Json::Str(Seq::empty())
    } else if c == 1 {
        v matches Json::Str(t) && text_from(t, printable_chars(), 1, 15) && t.len() == xorshift_uniform(h2, 1, 15)
    } else {
        string_fits(v, kind) && drawn_string(h2, kind, v)
    }
}

/// What the removal pass of an object's mutation keeps of the members `ms`,
/// and the generator's state after it, from state `h`: each member that is
/// not required costs one draw below a hundred, and goes when the draw is
/// below ten and its path is not protected.
pub open spec fn removal(h: RngState, s: Schema, path: Seq<char>, ms: Seq<(Seq<char>, Json)>) -> (Seq<(Seq<char>, Json)>, RngState)
    decreases ms.len(),
{
    if ms.len() == 0 {
        (Seq::empty(), h)
    } else {
        let prev = removal(h, s, path, ms.drop_last());
        let m = ms.last();
        if s.required.contains(m.0) {
            (prev.0.push(m), prev.1)
        } else {
            let h2 = prev.1.after(Draw::Uniform(0, 100));
            if xorshift_uniform(prev.1, 0, 100) < 10 && !protected(child_path(path, m.0)) {
                (prev.0, h2)
            } else {
                (prev.0.push(m), h2)
            }
        }
    }
}

/// The state after the removal draws of an array's mutation on `n`
/// elements: a draw below `n`, a shuffle, and a second draw below `n`.
pub open spec fn kept_state(h: RngState, n: nat) -> RngState {
    h.after(Draw::Uniform(0, n as u64)).after(Draw::Shuffle(n)).after(Draw::Uniform(0, n as u64))
}

/// The elements an array's mutation keeps of `a`, from state `h`: the
/// shuffled elements, of which the first [`kept_count`] remain.
pub open spec fn kept_elements(h: RngState, a: Seq<Json>) -> Seq<Json> {
    reordered(a, xorshift_shuffle(h.after(Draw::Uniform(0, a.len() as u64)), a.len())).take(
        kept_count(h, a.len()),
    )
}

/// The record of the generator states that a nested mutation goes
/// through: for an object or an array, the states between the steps over
/// its members or elements, and the record of each one's own mutation.
pub enum MutTrace {
    Done,
    Steps(Seq<RngState>, Seq<MutTrace>),
}

/// What the mutation of an array with elements `a` under schema `s` at
/// `path` gives, from state `h`, along the record `t`: the kept elements
/// (see [`kept_elements`]), each mutated in turn, then as many new ones as
/// a draw below five says (see [`elems_through`]).
pub open spec fn array_traced(h: RngState, s: Schema, path: Seq<char>, a: Seq<Json>, after: Json, t: MutTrace) -> bool
    decreases s, 0nat, 0nat,
{
    match s.items {
        Some(it) => after matches Json::Array(b) && t matches MutTrace::Steps(hs, ts) && hs.len() > 0 && hs[0]
            == kept_state(h, a.len()) && elems_through(hs, ts, *it, path, kept_elements(h, a), b),
        None => true,
    }
}

/// One pass of the mutation step over a kept member `before`, from state
/// `h`, giving `after` and the state `h2`, along the record `t`. A draw
/// below a hundred skips the member when it is below ten; a skipped or
/// protected member, or one with no field in the schema, stays as it was.
/// Otherwise a boolean or a number gets the value `mutate_bool` or
/// `mutate_number` gives (a number that is not an `i64` the value of a
/// magic or random draw), a string one that [`string_mutation`] allows, an
/// object or an array what its own mutation gives with the field's schema
/// and path (see [`object_traced`] and [`array_traced`]).
pub open spec fn field_step(
    h: RngState,
    s: Schema,
    path: Seq<char>,
    before: (Seq<char>, Json),
    after: (Seq<char>, Json),
    h2: RngState,
    t: MutTrace,
) -> bool
    decreases s, 1nat, 0nat,
{
    let h1 = h.after(Draw::Uniform(0, 100));
    let k = field_index(s.properties, before.0);
    let sub_path = child_path(path, before.0);
    &&& after.0 == before.0
    &&& if xorshift_uniform(h, 0, 100) < 10 || protected(sub_path) || !(0 <= k < s.properties.len()) {
        after.1 == before.1 && h2 == h1
    } else {
        let sub = s.properties[k].1;
        match before.1 {
            Json::Bool(_) => after.1 == Json::Bool(range_draw(h1, 0, 2) == 1) && h2 == range_state(h1, 0, 2),
            Json::Int(n) => after.1 == Json::Int(number_mutation(h1, n, sub.format)) && h2 == number_state(
                h1,
                sub.format,
            ),
            Json::Number(_) => after.1 == Json::Int(number_mutation(h1, 0, sub.format)) && h2 == number_state(
                h1,
                sub.format,
            ),
            Json::Str(_) => string_mutation(h1, sub.is_quant, string_kind(before.0, sub.format, sub.is_quant), after.1),
            Json::Object(m) => object_traced(h1, sub, sub_path, m, after.1, t),
            Json::Array(a) => array_traced(h1, sub, sub_path, a, after.1, t),
            Json::Null => true,
        }
    }
}

/// The members `after` begin with the members `before`, each passed
/// through [`field_step`] in order, the generator going through the states
/// `hs` and each member's own mutation along its record in `ts`.
pub open spec fn steps_through(
    hs: Seq<RngState>,
    ts: Seq<MutTrace>,
    s: Schema,
    path: Seq<char>,
    before: Seq<(Seq<char>, Json)>,
    after: Seq<(Seq<char>, Json)>,
) -> bool
    decreases s, 2nat, before.len(),
{
    if before.len() == 0 {
        hs.len() == 1
    } else {
        let n = before.len() - 1;
        &&& before.len() <= after.len()
        &&& hs.len() == before.len() + 1
        &&& ts.len() == before.len()
        &&& steps_through(hs.drop_last(), ts.drop_last(), s, path, before.drop_last(), after)
        &&& field_step(hs[n], s, path, before[n], after[n], hs[n + 1], ts[n])
    }
}

/// What the mutation of an object with members `m` under schema `s` at
/// `path` gives, from state `h`, along the record `t`: with values of its
/// own, the value drawn from them (see [`enum_pick`]); otherwise an object
/// whose first members are those the removal pass keeps (see [`removal`]),
/// each passed through the mutation step in turn (see [`steps_through`]).
pub open spec fn object_traced(h: RngState, s: Schema, path: Seq<char>, m: Seq<(Seq<char>, Json)>, after: Json, t: MutTrace) -> bool
    decreases s, 3nat, 0nat,
{
    if has_enum(s) {
        after == enum_pick(h, s.enum_values, s.enum_regex)
    } else {
        after matches Json::Object(m2) && t matches MutTrace::Steps(hs, ts) && hs.len() > 0 && hs[0] == removal(
            h,
            s,
            path,
            m,
        ).1 && steps_through(hs, ts, s, path, removal(h, s, path, m).0, m2)
    }
}

/// One kept element's mutation with the element schema `items`, from state
/// `h`, giving `after` and the state `h2`, along the record `t`: a boolean
/// or a number gets the value `mutate_bool` or `mutate_number` gives (a
/// number that is not an `i64` the value of a magic or random draw), a
/// string one that [`string_mutation`] allows, an object or an array what
/// its own mutation gives (see [`object_traced`] and [`array_traced`]).
pub open spec fn elem_step(h: RngState, items: Schema, path: Seq<char>, before: Json, after: Json, h2: RngState, t: MutTrace) -> bool
    decreases items, 4nat, 0nat,
{
    match before {
        Json::Bool(_) => after == Json::Bool(range_draw(h, 0, 2) == 1) && h2 == range_state(h, 0, 2),
        Json::Int(n) => after == Json::Int(number_mutation(h, n, items.format)) && h2 == number_state(h, items.format),
        Json::Number(_) => after == Json::Int(number_mutation(h, 0, items.format)) && h2 == number_state(
            h,
            items.format,
        ),
        Json::Str(_) => string_mutation(h, items.is_quant, string_kind(path, items.format, items.is_quant), after),
        Json::Object(m) => object_traced(h, items, path, m, after, t),
        Json::Array(a) => array_traced(h, items, path, a, after, t),
        Json::Null => true,
    }
}

/// The elements `after` begin with the elements `before`, each passed
/// through [`elem_step`] in order, the generator going through the states
/// `hs` and each element's own mutation along its record in `ts`.
pub open spec fn elems_chain(
    hs: Seq<RngState>,
    ts: Seq<MutTrace>,
    items: Schema,
    path: Seq<char>,
    before: Seq<Json>,
    after: Seq<Json>,
) -> bool
    decreases items, 5nat, before.len(),
{
    if before.len() == 0 {
        hs.len() == 1
    } else {
        let n = before.len() - 1;
        &&& before.len() <= after.len()
        &&& hs.len() == before.len() + 1
        &&& ts.len() == before.len()
        &&& elems_chain(hs.drop_last(), ts.drop_last(), items, path, before.drop_last(), after)
        &&& elem_step(hs[n], items, path, before[n], after[n], hs[n + 1], ts[n])
    }
}

/// [`elems_chain`], followed by as many new elements as a draw below five
/// says.
pub open spec fn elems_through(
    hs: Seq<RngState>,
    ts: Seq<MutTrace>,
    items: Schema,
    path: Seq<char>,
    before: Seq<Json>,
    after: Seq<Json>,
) -> bool
    decreases items, 6nat, 0nat,
{
    &&& hs.len() == before.len() + 1
    &&& after.len() == before.len() + xorshift_uniform(hs[before.len() as int], 0, 5)
    &&& elems_chain(hs, ts, items, path, before, after)
}

/// What the mutation of an object with members `m` under schema `s` at
/// `path` gives, from state `h`, along some record of the generator
/// states it goes through (see [`object_traced`]).
pub open spec fn object_stepped(h: RngState, s: Schema, path: Seq<char>, m: Seq<(Seq<char>, Json)>, after: Json) -> bool {
    exists|t: MutTrace| #[trigger] object_traced(h, s, path, m, after, t)
}

/// What the mutation of an array with elements `a` under schema `s` at
/// `path` gives, from state `h`, along some record of the generator states
/// it goes through (see [`array_traced`]).
pub open spec fn array_stepped(h: RngState, s: Schema, path: Seq<char>, a: Seq<Json>, after: Json) -> bool {
    exists|t: MutTrace| #[trigger] array_traced(h, s, path, a, after, t)
}

/// A chain of mutation steps, one for each member, makes
/// [`steps_through`].
proof fn lemma_steps_intro(
    hs: Seq<RngState>,
    ts: Seq<MutTrace>,
    s: Schema,
    path: Seq<char>,
    before: Seq<(Seq<char>, Json)>,
    after: Seq<(Seq<char>, Json)>,
)
    requires
        hs.len() == before.len() + 1,
        ts.len() == before.len(),
        before.len() <= after.len(),
        forall|k: int|
            0 <= k < before.len() ==> #[trigger] field_step(hs[k], s, path, before[k], after[k], hs[k + 1], ts[k]),
    ensures
        steps_through(hs, ts, s, path, before, after),
    decreases before.len(),
{
    if before.len() > 0 {
        let n = before.len() - 1;
        let hs2 = hs.drop_last();
        let ts2 = ts.drop_last();
        let b2 = before.drop_last();
        assert forall|k: int| 0 <= k < b2.len() implies #[trigger] field_step(
            hs2[k],
            s,
            path,
            b2[k],
            after[k],
            hs2[k + 1],
            ts2[k],
        ) by {
            assert(field_step(hs[k], s, path, before[k], after[k], hs[k + 1], ts[k]));
        }
        lemma_steps_intro(hs2, ts2, s, path, b2, after);
        assert(field_step(hs[n], s, path, before[n], after[n], hs[n + 1], ts[n]));
    }
}

/// [`steps_through`] looks only at the first members of `after`.
proof fn lemma_steps_prefix(
    hs: Seq<RngState>,
    ts: Seq<MutTrace>,
    s: Schema,
    path: Seq<char>,
    before: Seq<(Seq<char>, Json)>,
    a1: Seq<(Seq<char>, Json)>,
    a2: Seq<(Seq<char>, Json)>,
)
    requires
        steps_through(hs, ts, s, path, before, a1),
        before.len() <= a2.len(),
        forall|k: int| 0 <= k < before.len() ==> a2[k] == a1[k],
    ensures
        steps_through(hs, ts, s, path, before, a2),
    decreases before.len(),
{
    if before.len() > 0 {
        let n = before.len() - 1;
        lemma_steps_prefix(hs.drop_last(), ts.drop_last(), s, path, before.drop_last(), a1, a2);
        assert(a2[n] == a1[n]);
    }
}

/// A chain of element steps, one for each element, makes [`elems_chain`].
proof fn lemma_elems_intro(
    hs: Seq<RngState>,
    ts: Seq<MutTrace>,
    items: Schema,
    path: Seq<char>,
    before: Seq<Json>,
    after: Seq<Json>,
)
    requires
        hs.len() == before.len() + 1,
        ts.len() == before.len(),
        before.len() <= after.len(),
        forall|k: int|
            0 <= k < before.len() ==> #[trigger] elem_step(hs[k], items, path, before[k], after[k], hs[k + 1], ts[k]),
    ensures
        elems_chain(hs, ts, items, path, before, after),
    decreases before.len(),
{
    if before.len() > 0 {
        let n = before.len() - 1;
        let hs2 = hs.drop_last();
        let ts2 = ts.drop_last();
        let b2 = before.drop_last();
        assert forall|k: int| 0 <= k < b2.len() implies #[trigger] elem_step(
            hs2[k],
            items,
            path,
            b2[k],
            after[k],
            hs2[k + 1],
            ts2[k],
        ) by {
            assert(elem_step(hs[k], items, path, before[k], after[k], hs[k + 1], ts[k]));
        }
        lemma_elems_intro(hs2, ts2, items, path, b2, after);
        assert(elem_step(hs[n], items, path, before[n], after[n], hs[n + 1], ts[n]));
    }
}

/// A member that a mutation added: a field of the schema, generated to
/// conform to its schema, with the field's path and a trailing dot as its
/// name for the generator.
pub open spec fn added_field(s: Schema, path: Seq<char>, e: (Seq<char>, Json)) -> bool {
    exists|k: int|
        0 <= k < s.properties.len() && (#[trigger] s.properties[k]).0 == e.0 && conforms(
            e.1,
            s.properties[k].1,
            path + e.0.push('.'),
        )
}

/// A magic value chosen by the draw `k`: for `int32` fields zero, the
/// bounds of `i32`, or minus one; for other formats the same with the
/// bounds of `i64`; without a format zero, the bounds of `i32` and `i64`,
/// or minus one.
pub open spec fn magic_value(format: Option<Seq<char>>, k: int) -> i64 {
    if format == Some("int32"@) {
        if k == 0 {
            0i64
        } else if k == 1 {
            i32::MIN as i64
        } else if k == 2 {
            i32::MAX as i64
        } else {
            -1i64
        }
    } else if format is Some {
        if k == 0 {
            0i64
        } else if k == 1 {
            i64::MIN
        } else if k == 2 {
            i64::MAX
        } else {
            -1i64
        }
    } else {
        if k == 0 {
            0i64
        } else if k == 1 {
            i32::MAX as i64
        } else if k == 2 {
            i32::MIN as i64
        } else if k == 3 {
            i64::MAX
        } else if k == 4 {
            i64::MIN
        } else {
            -1i64
        }
    }
}

/// How many magic values a format offers.
pub open spec fn magic_count(format: Option<Seq<char>>) -> int {
    if format is Some {
        4
    } else {
        6
    }
}

/// The range a random value of the format is drawn from.
pub open spec fn number_range(format: Option<Seq<char>>) -> (int, int) {
    if format == Some("int32"@) {
        (i32::MIN as int, i32::MAX as int)
    } else {
        (i64::MIN as int, i64::MAX as int)
    }
}

/// The value an integer field gets on a generator in state `h`: a draw in
/// `0..3` chooses a magic value (by a second draw), the old value changed
/// by a draw in `-1..2` (wrapping within `i32` for `int32` fields), or a
/// random value of the format.
pub open spec fn number_mutation(h: RngState, old: i64, format: Option<Seq<char>>) -> i64 {
    let c = range_draw(h, 0, 3);
    let h1 = range_state(h, 0, 3);
    if c == 0 {
        magic_value(format, range_draw(h1, 0, magic_count(format)))
    } else if c == 1 {
        let d = range_draw(h1, -1, 2);
        if format == Some("int32"@) {
            ((old as i32).wrapping_add(d as i32)) as i64
        } else {
            old.wrapping_add(d as i64)
        }
    } else {
        range_draw(h1, number_range(format).0, number_range(format).1) as i64
    }
}

/// The generator's state after an integer field's mutation (see
/// [`number_mutation`]).
pub open spec fn number_state(h: RngState, format: Option<Seq<char>>) -> RngState {
    let c = range_draw(h, 0, 3);
    let h1 = range_state(h, 0, 3);
    if c == 0 {
        range_state(h1, 0, magic_count(format))
    } else if c == 1 {
        range_state(h1, -1, 2)
    } else {
        range_state(h1, number_range(format).0, number_range(format).1)
    }
}

/// The `i64` view of an `i32` that wrapped around.
pub open spec fn fits_i32(n: i64) -> bool {
    i32::MIN <= n <= i32::MAX
}

/// Gives a boolean field a new random value.
pub fn mutate_bool(rng: &mut Rng, resource: &mut JsonValue, constraint: &K8sResourceSpec)
    ensures
        final(resource)@ == Json::Bool(range_draw(old(rng)@, 0, 2) == 1),
        final(rng)@ == range_state(old(rng)@, 0, 2),
{
    *resource = gen_bool(rng);
}

/// A magic value for a number field of the schema's format, chosen by one
/// draw (see [`magic_value`]).
fn magic_number(rng: &mut Rng, constraint: &K8sResourceSpec) -> (r: i64)
    requires
        int_format_ok(constraint@),
    ensures
        r == magic_value(constraint@.format, range_draw(old(rng)@, 0, magic_count(constraint@.format))),
        constraint@.format == Some("int32"@) ==> fits_i32(r),
        final(rng)@ == range_state(old(rng)@, 0, magic_count(constraint@.format)),
{
    proof {
        reveal_strlit("int32");
        lemma_view_fields(*constraint);
    }
    let int32 = match &constraint.format {
        Some(f) => str_eq(f.as_str(), "int32"),
        None => false,
    };
    if int32 {
        match gen_range(rng, 0, 4) {
            0 => 0,
            1 => i32::MIN as i64,
            2 => i32::MAX as i64,
            _ => -1,
        }
    } else if constraint.format.is_some() {
        match gen_range(rng, 0, 4) {
            0 => 0,
            1 => i64::MIN,
            2 => i64::MAX,
            _ => -1,
        }
    } else {
        match gen_range(rng, 0, 6) {
            0 => 0,
            1 => i32::MAX as i64,
            2 => i32::MIN as i64,
            3 => i64::MAX,
            4 => i64::MIN,
            _ => -1,
        }
    }
}

/// A random value of a number field's format (see [`number_range`]).
fn random_number(rng: &mut Rng, constraint: &K8sResourceSpec) -> (r: i64)
    requires
        int_format_ok(constraint@),
    ensures
        r == range_draw(old(rng)@, number_range(constraint@.format).0, number_range(constraint@.format).1),
        constraint@.format == Some("int32"@) ==> fits_i32(r),
        final(rng)@ == range_state(old(rng)@, number_range(constraint@.format).0, number_range(constraint@.format).1),
{
    proof {
        reveal_strlit("int32");
        lemma_view_fields(*constraint);
    }
    let int32 = match &constraint.format {
        Some(f) => str_eq(f.as_str(), "int32"),
        None => false,
    };
    if int32 {
        rand_int_i32(rng) as i64
    } else {
        rand_int(rng)
    }
}

/// Mutates a number field whose value is not an `i64` (a fraction, or a
/// number beyond the range): with equal chances a magic value or a random
/// value of the format, as for integers; the arithmetic mutation needs an
/// `i64`, and on such a number it fails.
fn mutate_fraction(rng: &mut Rng, resource: &mut JsonValue, constraint: &K8sResourceSpec) -> (r: Result<(), GenError>)
    requires
        old(resource)@ is Number,
        int_format_ok(constraint@),
    ensures
        r is Err <==> range_draw(old(rng)@, 0, 3) == 1,
        r is Ok ==> final(resource)@ == Json::Int(number_mutation(old(rng)@, 0, constraint@.format)),
        r is Ok ==> final(rng)@ == number_state(old(rng)@, constraint@.format),
{
    let text = match resource {
        JsonValue::Number(t) => t.clone(),
        _ => String::new(),
    };
    match gen_range(rng, 0, 3) {
        0 => {
            *resource = JsonValue::Int(magic_number(rng, constraint));
            Ok(())
        },
        1 => Err(GenError::NotAnInteger(text)),
        _ => {
            *resource = JsonValue::Int(random_number(rng, constraint));
            Ok(())
        },
    }
}

/// Gives an integer field a new value: with equal chances a magic value
/// (zero, minus one, or a bound of `i32` or `i64` as the format allows), the
/// old value changed by at most one, or a random value of the format. An
/// `int32` field keeps to the `i32` range (arithmetic wraps as in a release
/// build).
pub fn mutate_number(rng: &mut Rng, resource: &mut JsonValue, constraint: &K8sResourceSpec)
    requires
        old(resource)@ is Int,
        int_format_ok(constraint@),
    ensures
        final(resource)@ matches Json::Int(n) && (constraint@.format == Some("int32"@) ==> fits_i32(n)),
        final(resource)@ == Json::Int(number_mutation(old(rng)@, old(resource)@->Int_0, constraint@.format)),
        final(rng)@ == number_state(old(rng)@, constraint@.format),
{
    proof {
        reveal_strlit("int32");
    }
    proof {
        lemma_view_fields(*constraint);
    }
    let old_value: i64 = match resource {
        JsonValue::Int(x) => *x,
        _ => 0,
    };
    let int32 = match &constraint.format {
        Some(f) => str_eq(f.as_str(), "int32"),
        None => false,
    };
    match gen_range(rng, 0, 3) {
        0 => {
            *resource = JsonValue::Int(magic_number(rng, constraint));
        },
        1 => {
            let delta = gen_range(rng, -1, 2);
            *resource = if int32 {
                let x = old_value as i32;
                JsonValue::Int(x.wrapping_add(delta as i32) as i64)
            } else {
                JsonValue::Int(old_value.wrapping_add(delta))
            };
        },
        _ => {
            *resource = JsonValue::Int(random_number(rng, constraint));
        },
    }
}

/// Gives a string field a new value: with equal chances the empty string, a
/// random printable string, or a value generated for the field's name.
pub fn mutate_string(rng: &mut Rng, resource: &mut JsonValue, constraint: &K8sResourceSpec, curpath: &str) -> (r: Result<(), GenError>)
    ensures
        r is Ok ==> final(resource)@ is Str || string_fits(
            final(resource)@,
            string_kind(curpath@, constraint@.format, constraint@.is_quant),
        ),
        pattern_usable(quantity_pattern()) && pattern_usable(name_pattern()) ==> r is Ok,
        r is Ok ==> string_mutation(
            old(rng)@,
            constraint@.is_quant,
            string_kind(curpath@, constraint@.format, constraint@.is_quant),
            final(resource)@,
        ),
{
    proof {
        lemma_view_fields(*constraint);
        reveal_strlit("([+-]?[0-9]+)(m|k|M|G|T|P|E)");
    }
    if constraint.is_quant {
        match rand_str_regex(rng, "([+-]?[0-9]+)(m|k|M|G|T|P|E)") {
            Some(s) => {
                *resource = JsonValue::Str(s);
            },
            None => {
                return Err(GenError::BadRegex(owned("([+-]?[0-9]+)(m|k|M|G|T|P|E)")));
            },
        }
    }
    match gen_range(rng, 0, 3) {
        0 => {
            *resource = JsonValue::Str(String::new());
        },
        1 => {
            let len = gen_range_usize(rng, 1, 15);
            *resource = JsonValue::Str(gen_printable_string(rng, len, None));
        },
        _ => {
            match gen_string(rng, curpath, &constraint.format, constraint.is_quant) {
                Ok(v) => {
                    *resource = v;
                },
                Err(e) => {
                    return Err(e);
                },
            }
        },
    }
    Ok(())
}

/// Whether `path` is one of the protected paths.
fn is_protected(path: &str) -> (b: bool)
    ensures
        b == protected(path@),
{
    str_eq(path, "$.apiVersion") || str_eq(path, "$.kind") || str_eq(path, "$.metadata") || str_eq(
        path,
        "$.metadata.name",
    )
}

/// The members of an object value, leaving `null` in its place.
fn take_members(resource: &mut JsonValue) -> (m: Vec<(String, JsonValue)>)
    requires
        old(resource)@ is Object,
    ensures
        old(resource)@ == Json::Object(members_view(m@)),
{
    let mut tmp = JsonValue::Null;
    std::mem::swap(resource, &mut tmp);
    match tmp {
        JsonValue::Object(m) => {
            proof {
                lemma_object_view(m);
            }
            m
        },
        _ => Vec::new(),
    }
}

/// The elements of an array value, leaving `null` in its place.
fn take_elements(resource: &mut JsonValue) -> (a: Vec<JsonValue>)
    requires
        old(resource)@ is Array,
    ensures
        old(resource)@ == Json::Array(json_seq(a@)),
{
    let mut tmp = JsonValue::Null;
    std::mem::swap(resource, &mut tmp);
    match tmp {
        JsonValue::Array(a) => {
            proof {
                lemma_array_view(a);
            }
            a
        },
        _ => Vec::new(),
    }
}

/// Mutates one value by its kind, with its field's schema.
fn mutate_value(rng: &mut Rng, value: &mut JsonValue, sub: &K8sResourceSpec, strpath: &str, subpath: &str) -> (r: Result<(), GenError>)
    requires
        value_mutable(old(value)@, sub@, subpath@),
    ensures
        patterns_ok(sub@) && integral(old(value)@) ==> r is Ok,
        old(value)@ is Number ==> (r is Err <==> range_draw(old(rng)@, 0, 3) == 1),
        old(value)@ is Number && r is Ok ==> final(value)@ == Json::Int(number_mutation(old(rng)@, 0, sub@.format))
            && final(rng)@ == number_state(old(rng)@, sub@.format),
        old(value)@ is Bool ==> r is Ok && final(value)@ == Json::Bool(range_draw(old(rng)@, 0, 2) == 1),
        old(value)@ is Bool ==> final(rng)@ == range_state(old(rng)@, 0, 2),
        old(value)@ is Int ==> final(rng)@ == number_state(old(rng)@, sub@.format),
        old(value)@ is Int ==> r is Ok && (final(value)@ matches Json::Int(n) && (sub@.format == Some("int32"@)
            ==> fits_i32(n))),
        old(value)@ is Int ==> final(value)@ == Json::Int(number_mutation(old(rng)@, old(value)@->Int_0, sub@.format)),
        old(value)@ is Str && r is Ok ==> final(value)@ is Str || string_fits(
            final(value)@,
            string_kind(strpath@, sub@.format, sub@.is_quant),
        ),
        old(value)@ is Str && r is Ok ==> string_mutation(
            old(rng)@,
            sub@.is_quant,
            string_kind(strpath@, sub@.format, sub@.is_quant),
            final(value)@,
        ),
        old(value)@ is Array && r is Ok ==> (final(value)@ matches Json::Array(a) && kept_count(
            old(rng)@,
            old(value)@->Array_0.len(),
        ) <= a.len() < kept_count(old(rng)@, old(value)@->Array_0.len()) + 5),
        old(value)@ is Object && r is Ok && has_enum(sub@) ==> sub@.enum_values.contains(final(value)@) || (
        sub@.enum_regex.len() > 0 && final(value)@ is Str),
        old(value)@ is Object && r is Ok && !has_enum(sub@) ==> (final(value)@ matches Json::Object(m) && {
            &&& (member_names(old(value)@->Object_0).no_duplicates() ==> member_names(m).no_duplicates())
            &&& forall|k: int|
                0 <= k < sub@.properties.len() ==> member_names(m).contains(#[trigger] sub@.properties[k].0)
            &&& forall|i: int|
                0 <= i < old(value)@->Object_0.len() && protected(
                    child_path(subpath@, (#[trigger] old(value)@->Object_0[i]).0),
                ) ==> m.contains(old(value)@->Object_0[i])
        }),
        old(value)@ is Array && r is Ok ==> array_stepped(old(rng)@, sub@, subpath@, old(value)@->Array_0, final(value)@),
        old(value)@ is Object && r is Ok ==> object_stepped(old(rng)@, sub@, subpath@, old(value)@->Object_0, final(value)@),
    decreases sub, 2nat,
{
    match value {
        JsonValue::Bool(_) => {
            mutate_bool(rng, value, sub);
            Ok(())
        },
        JsonValue::Int(_) => {
            mutate_number(rng, value, sub);
            Ok(())
        },
        JsonValue::Number(_) => mutate_fraction(rng, value, sub),
        JsonValue::Str(_) => mutate_string(rng, value, sub, strpath),
        JsonValue::Array(_) => mutate_array(rng, value, sub, subpath),
        JsonValue::Object(_) => mutate_object(rng, value, sub, subpath),
        _ => Ok(()),
    }
}

/// Mutates an array: some elements may go (after a shuffle), the rest are
/// mutated with the element schema, and up to four new values generated
/// from the array's own schema are appended.
pub fn mutate_array(rng: &mut Rng, resource: &mut JsonValue, constraint: &K8sResourceSpec, curpath: &str) -> (r: Result<(), GenError>)
    requires
        array_mutable(old(resource)@, constraint@, curpath@),
    ensures
        r is Ok ==> (final(resource)@ matches Json::Array(a) && 1 <= a.len() <= old(resource)@->Array_0.len() + 4),
        r is Ok ==> (final(resource)@ matches Json::Array(a) && kept_count(old(rng)@, old(resource)@->Array_0.len())
            <= a.len() < kept_count(old(rng)@, old(resource)@->Array_0.len()) + 5),
        r is Ok ==> (final(resource)@ matches Json::Array(a) && forall|i: int|
            kept_count(old(rng)@, old(resource)@->Array_0.len()) <= i < a.len() ==> conforms(
                #[trigger] a[i],
                constraint@,
                curpath@,
            )),
        r is Ok ==> array_stepped(old(rng)@, constraint@, curpath@, old(resource)@->Array_0, final(resource)@),
        patterns_ok(constraint@) && integral(old(resource)@) ==> r is Ok,
    decreases constraint, 1nat,
{
    let ghost s = constraint@;
    let ghost h0 = rng@;
    let items: &K8sResourceSpec = match &constraint.items {
        Some(b) => b,
        None => {
            return Ok(());
        },
    };
    proof {
        assert(s.items == Some(Box::new(items@)));
        assert(decreases_to!(*constraint => constraint.items));
        assert(decreases_to!(*constraint => *items));
        assert(patterns_ok(s) ==> patterns_ok(items@));
    }
    let mut elems = take_elements(resource);
    let ghost a0 = json_seq(elems@);
    let n = elems.len();
    let _remove_n = gen_range_usize(rng, 0, n);
    let ghost before_shuffle = elems@;
    let ghost ord = xorshift_shuffle(rng@, n as nat);
    let ghost ks = reordered(a0, ord);
    shuffle(rng, &mut elems);
    proof {
        assert forall|k: int| 0 <= k < elems@.len() implies (#[trigger] elems@[k])@ == ks[k] by {
            assert(0 <= ord[k] < n);
            assert(elems@[k] == before_shuffle[ord[k]]);
        }
        assert forall|k: int| 0 <= k < elems@.len() && integral(Json::Array(a0)) implies integral(
            (#[trigger] elems@[k])@,
        ) by {
            assert(0 <= ord[k] < n);
            assert(elems@[k] == before_shuffle[ord[k]]);
            assert(a0[ord[k]] == before_shuffle[ord[k]]@);
        }
        broadcast use vstd::seq_lib::group_to_multiset_ensures;
        assert forall|i: int| 0 <= i < elems@.len() implies value_mutable(#[trigger] elems@[i]@, items@, curpath@) by {
            assert(elems@.contains(elems@[i]));
            assert(elems@.to_multiset().count(elems@[i]) > 0);
            assert(before_shuffle.contains(elems@[i]));
            let j = choose|j: int| 0 <= j < before_shuffle.len() && before_shuffle[j] == elems@[i];
            assert(a0[j] == elems@[i]@);
        }
    }
    let pops = gen_range_usize(rng, 0, elems.len());
    proof {
        assert(pops == n - kept_count(h0, n as nat));
    }
    let mut p: usize = 0;
    while p < pops
        invariant
            p <= pops,
            pops < n,
            elems@.len() == n - p,
            forall|k: int| 0 <= k < elems@.len() ==> (#[trigger] elems@[k])@ == ks[k],
            integral(Json::Array(a0)) ==> forall|k: int| 0 <= k < elems@.len() ==> integral((#[trigger] elems@[k])@),
            forall|i: int| 0 <= i < elems@.len() ==> value_mutable(#[trigger] elems@[i]@, items@, curpath@),
        decreases pops - p,
    {
        elems.pop();
        p = p + 1;
    }
    let mut out: Vec<JsonValue> = Vec::new();
    let m = elems.len();
    let mut i: usize = 0;
    let ghost hk = rng@;
    let ghost mut hs: Seq<RngState> = seq![hk];
    let ghost mut ts: Seq<MutTrace> = Seq::empty();
    while i < m
        invariant
            i <= m,
            elems@.len() == m - i,
            out@.len() == i,
            forall|k: int| 0 <= k < elems@.len() ==> (#[trigger] elems@[k])@ == ks[i + k],
            integral(Json::Array(a0)) ==> forall|k: int| 0 <= k < elems@.len() ==> integral((#[trigger] elems@[k])@),
            old(resource)@ == Json::Array(a0),
            hs.len() == i + 1,
            hs[0] == hk,
            hs[i as int] == rng@,
            ts.len() == i,
            forall|k: int| 0 <= k < i ==> #[trigger] elem_step(hs[k], items@, curpath@, ks[k], out@[k]@, hs[k + 1], ts[k]),
            forall|k: int| 0 <= k < elems@.len() ==> value_mutable(#[trigger] elems@[k]@, items@, curpath@),
            decreases_to!(*constraint => *items),
            s == constraint@,
            patterns_ok(s) ==> patterns_ok(items@),
        decreases m - i,
    {
        let ghost before = elems@;
        let mut e = elems.remove(0);
        proof {
            assert(e == before[0]);
            assert forall|k: int| 0 <= k < elems@.len() implies value_mutable(#[trigger] elems@[k]@, items@, curpath@) by {
                assert(elems@[k] == before[k + 1]);
            }
            assert forall|k: int| 0 <= k < elems@.len() implies (#[trigger] elems@[k])@ == ks[i + 1 + k] by {
                assert(elems@[k] == before[k + 1]);
            }
            assert forall|k: int| 0 <= k < elems@.len() && integral(Json::Array(a0)) implies integral(
                (#[trigger] elems@[k])@,
            ) by {
                assert(elems@[k] == before[k + 1]);
            }
        }
        let ghost e0 = e@;
        let ghost hi = rng@;
        match mutate_value(rng, &mut e, items, curpath, curpath) {
            Ok(()) => {},
            Err(err) => {
                return Err(err);
            },
        }
        let ghost out_before = out@;
        out.push(e);
        proof {
            assert(e0 == ks[i as int]);
            let t = match e0 {
                Json::Object(m) => choose|t: MutTrace| #[trigger] object_traced(hi, items@, curpath@, m, out@[i as int]@, t),
                Json::Array(a) => choose|t: MutTrace| #[trigger] array_traced(hi, items@, curpath@, a, out@[i as int]@, t),
                _ => MutTrace::Done,
            };
            assert(elem_step(hi, items@, curpath@, ks[i as int], out@[i as int]@, rng@, t));
            let hs2 = hs.push(rng@);
            let ts2 = ts.push(t);
            assert forall|k: int| 0 <= k < i + 1 implies #[trigger] elem_step(hs2[k], items@, curpath@, ks[k], out@[k]@, hs2[k + 1], ts2[k]) by {
                if k < i {
                    assert(out@[k] == out_before[k]);
                    assert(hs2[k] == hs[k] && hs2[k + 1] == hs[k + 1] && ts2[k] == ts[k]);
                }
            }
            hs = hs2;
            ts = ts2;
        }
        i = i + 1;
    }
    let ghost o1 = out@;
    let ghost hm = rng@;
    let add = gen_range_usize(rng, 0, 5);
    let mut j: usize = 0;
    while j < add
        invariant
            j <= add,
            add < 5,
            out@.len() == m + j,
            forall|k: int| 0 <= k < m ==> #[trigger] out@[k] == o1[k],
            forall|k: int| m <= k < out@.len() ==> conforms(#[trigger] out@[k]@, s, curpath@),
            generatable(s),
            s == constraint@,
        decreases add - j,
    {
        match gen_property(rng, constraint, curpath) {
            Ok(v) => {
                out.push(v);
            },
            Err(err) => {
                return Err(err);
            },
        }
        j = j + 1;
    }
    proof {
        lemma_array_view(out);
        assert(1 <= m <= n);
        assert(a0.len() == n);
        assert(m == kept_count(h0, n as nat));
        assert(forall|k: int| 0 <= k < out@.len() ==> json_seq(out@)[k] == out@[k]@);
        let fin = json_seq(out@);
        let kept = kept_elements(h0, a0);
        assert(hk == kept_state(h0, n as nat));
        assert(kept.len() == m);
        assert forall|k: int| 0 <= k < kept.len() implies #[trigger] elem_step(hs[k], *s.items->0, curpath@, kept[k], fin[k], hs[k + 1], ts[k]) by {
            assert(kept[k] == ks[k]);
            assert(fin[k] == out@[k]@);
            assert(out@[k] == o1[k]);
            assert(elem_step(hs[k], items@, curpath@, ks[k], o1[k]@, hs[k + 1], ts[k]));
        }
        lemma_elems_intro(hs, ts, *s.items->0, curpath@, kept, fin);
        assert(elems_through(hs, ts, *s.items->0, curpath@, kept, fin));
        assert(array_traced(h0, s, curpath@, a0, Json::Array(fin), MutTrace::Steps(hs, ts)));
    }
    *resource = JsonValue::Array(out);
    Ok(())
}

/// One pass of an object's mutation step over a kept member `name` with
/// value `val` (see [`field_step`]).
fn mutate_member(
    rng: &mut Rng,
    name: &String,
    val: &mut JsonValue,
    constraint: &K8sResourceSpec,
    curpath: &str,
    Ghost(m0): Ghost<Seq<(Seq<char>, Json)>>,
) -> (r: Result<(), GenError>)
    requires
        object_mutable(Json::Object(m0), constraint@, curpath@),
        !has_enum(constraint@),
        m0.contains((name@, old(val)@)),
    ensures
        r is Ok ==> exists|t: MutTrace|
            #[trigger] field_step(old(rng)@, constraint@, curpath@, (name@, old(val)@), (name@, final(val)@), final(rng)@, t),
        protected(child_path(curpath@, name@)) ==> final(val)@ == old(val)@,
        patterns_ok(constraint@) && integral(old(val)@) ==> r is Ok,
    decreases constraint, 0nat,
{
    let ghost s = constraint@;
    let ghost val0 = val@;
    let props = &constraint.properties;
    proof {
        lemma_view_fields(*constraint);
        assert(s.properties == prop_views(props@));
    }
    let skip = chance(rng, 10);
    if skip {
        proof {
            assert(field_step(old(rng)@, s, curpath@, (name@, val0), (name@, val@), rng@, MutTrace::Done));
        }
        return Ok(());
    }
    let subpath = join_child(curpath, name.as_str());
    if is_protected(subpath.as_str()) {
        proof {
            assert(field_step(old(rng)@, s, curpath@, (name@, val0), (name@, val@), rng@, MutTrace::Done));
        }
        return Ok(());
    }
    match find_prop(props, name.as_str()) {
        Some(k) => {
            let ghost h1 = rng@;
            proof {
                let i0 = choose|i0: int| 0 <= i0 < m0.len() && m0[i0] == (name@, val0);
                assert(s.properties[k as int] == (props@[k as int].0@, props@[k as int].1@));
                assert(names(s.properties)[k as int] == name@);
                assert(generatable(s));
                lemma_field_index(s.properties, k as int);
                assert(field_index(s.properties, m0[i0].0) == k);
                assert(subpath@ == child_path(curpath@, m0[i0].0));
                lemma_object_member(m0, s, curpath@, i0);
                assert(value_mutable(val0, props@[k as int].1@, subpath@));
                broadcast use vstd::std_specs::vec::group_vec_axioms;
                assert(decreases_to!(*constraint => constraint.properties));
                assert(decreases_to!(constraint.properties => constraint.properties[k as int]));
                assert(decreases_to!(constraint.properties[k as int] => constraint.properties[k as int].1));
                assert(decreases_to!(*constraint => props@[k as int].1));
                if patterns_ok(s) {
                    assert(!has_enum(s));
                    assert(is_object(s));
                    assert(patterns_ok(s.properties[k as int].1));
                }
            }
            let r = mutate_value(rng, val, &props[k].1, name.as_str(), subpath.as_str());
            proof {
                assert(s.properties[field_index(s.properties, name@)].1 == props@[k as int].1@);
                if r is Ok {
                    let sub = props@[k as int].1@;
                    match val0 {
                        Json::Object(m) => {
                            let t = choose|t: MutTrace| #[trigger] object_traced(h1, sub, subpath@, m, val@, t);
                            assert(field_step(old(rng)@, s, curpath@, (name@, val0), (name@, val@), rng@, t));
                        },
                        Json::Array(a) => {
                            let t = choose|t: MutTrace| #[trigger] array_traced(h1, sub, subpath@, a, val@, t);
                            assert(field_step(old(rng)@, s, curpath@, (name@, val0), (name@, val@), rng@, t));
                        },
                        _ => {
                            assert(field_step(old(rng)@, s, curpath@, (name@, val0), (name@, val@), rng@, MutTrace::Done));
                        },
                    }
                }
            }
            r
        },
        None => {
            proof {
                lemma_field_index_name(s.properties, name@);
                if 0 <= field_index(s.properties, name@) < s.properties.len() {
                    assert(names(s.properties)[field_index(s.properties, name@)] == name@);
                }
                assert(field_step(old(rng)@, s, curpath@, (name@, val0), (name@, val@), rng@, MutTrace::Done));
            }
            Ok(())
        },
    }
}

/// Mutates an object. A field with values of its own gets one of them.
/// Otherwise some fields that are not required may go, each remaining field
/// may be mutated with its own schema, and every field of the schema that
/// is missing is generated; the protected fields of the resource
/// (`apiVersion`, `kind`, `metadata`) are neither removed nor changed.
pub fn mutate_object(rng: &mut Rng, resource: &mut JsonValue, constraint: &K8sResourceSpec, curpath: &str) -> (r: Result<(), GenError>)
    requires
        object_mutable(old(resource)@, constraint@, curpath@),
    ensures
        r is Ok && has_enum(constraint@) ==> constraint@.enum_values.contains(final(resource)@) || (
        constraint@.enum_regex.len() > 0 && final(resource)@ is Str),
        r is Ok && !has_enum(constraint@) ==> (final(resource)@ matches Json::Object(m) && {
            &&& (member_names(old(resource)@->Object_0).no_duplicates() ==> member_names(m).no_duplicates())
            &&& forall|k: int|
                0 <= k < constraint@.properties.len() ==> member_names(m).contains(
                    #[trigger] constraint@.properties[k].0,
                )
            &&& forall|i: int|
                0 <= i < old(resource)@->Object_0.len() && protected(
                    child_path(curpath@, (#[trigger] old(resource)@->Object_0[i]).0),
                ) ==> m.contains(old(resource)@->Object_0[i])
            &&& forall|i: int|
                0 <= i < old(resource)@->Object_0.len() && constraint@.required.contains(
                    (#[trigger] old(resource)@->Object_0[i]).0,
                ) ==> member_names(m).contains(old(resource)@->Object_0[i].0)
            &&& forall|i: int|
                0 <= i < m.len() ==> member_names(old(resource)@->Object_0).contains((#[trigger] m[i]).0)
                    || added_field(constraint@, curpath@, m[i])
        }),
        r is Ok ==> object_stepped(old(rng)@, constraint@, curpath@, old(resource)@->Object_0, final(resource)@),
        patterns_ok(constraint@) && integral(old(resource)@) ==> r is Ok,
    decreases constraint, 1nat,
{
    let ghost s = constraint@;
    proof {
        lemma_view_fields(*constraint);
        if patterns_ok(s) {
            assert forall|i: int| 0 <= i < constraint._enum_regex@.len() implies pattern_usable(
                #[trigger] constraint._enum_regex@[i]@,
            ) by {
                assert(s.enum_regex[i] == constraint._enum_regex@[i]@);
            }
        }
    }
    let ghost h0 = rng@;
    match rand_enum_val(rng, &constraint._enum, &constraint._enum_regex) {
        Err(e) => {
            return Err(e);
        },
        Ok(Some(v)) => {
            proof {
                assert(object_traced(old(rng)@, s, curpath@, old(resource)@->Object_0, v@, MutTrace::Done));
            }
            *resource = v;
            return Ok(());
        },
        Ok(None) => {},
    }
    let ghost old_view = resource@;
    let mut members = take_members(resource);
    let ghost m0 = members_view(members@);
    let props = &constraint.properties;
    // some fields that are not required go
    let mut kept: Vec<(String, JsonValue)> = Vec::new();
    let n = members.len();
    let mut i: usize = 0;
    proof {
        assert(m0.take(0) =~= Seq::<(Seq<char>, Json)>::empty());
        assert(members_view(kept@) =~= Seq::<(Seq<char>, Json)>::empty());
    }
    while i < n
        invariant
            i <= n,
            members@.len() == n - i,
            m0.len() == n,
            forall|k: int| 0 <= k < members@.len() ==> (#[trigger] members@[k]).0@ == m0[i + k].0 && members@[k].1@ == m0[i + k].1,
            forall|k: int| 0 <= k < kept@.len() ==> m0.contains(#[trigger] members_view(kept@)[k]),
            forall|k: int| 0 <= k < i && protected(child_path(curpath@, m0[k].0)) ==> members_view(kept@).contains(#[trigger] m0[k]),
            forall|k: int| 0 <= k < i && s.required.contains(m0[k].0) ==> members_view(kept@).contains(#[trigger] m0[k]),
            s == constraint@,
            s.required == crate::conf::str_seq(constraint.required@),
            member_names(m0).no_duplicates() ==> member_names(members_view(kept@)).no_duplicates(),
            member_names(m0).no_duplicates() ==> forall|k: int, q: int| 0 <= k < kept@.len() && i <= q < n ==> #[trigger] members_view(kept@)[k].0 != #[trigger] m0[q].0,
            removal(h0, s, curpath@, m0.take(i as int)).0 == members_view(kept@),
            removal(h0, s, curpath@, m0.take(i as int)).1 == rng@,
        decreases n - i,
    {
        let ghost before = members@;
        let ghost kv = members_view(kept@);
        proof {
            assert(m0.take(i + 1).drop_last() =~= m0.take(i as int));
            assert(m0.take(i + 1).last() == m0[i as int]);
        }
        let (name, val) = members.remove(0);
        proof {
            assert(name@ == m0[i as int].0 && val@ == m0[i as int].1);
            assert forall|k: int| 0 <= k < members@.len() implies (#[trigger] members@[k]).0@ == m0[i + 1 + k].0 && members@[k].1@ == m0[i + 1 + k].1 by {
                assert(members@[k] == before[k + 1]);
            }
        }
        let subpath = join_child(curpath, name.as_str());
        let required = holds(&constraint.required, name.as_str());
        let drop = if !required {
            chance(rng, 10) && !is_protected(subpath.as_str())
        } else {
            false
        };
        if !drop {
            kept.push((name, val));
            proof {
                let kv2 = members_view(kept@);
                assert(kv2 =~= kv.push(m0[i as int]));
                assert(kv2[kv.len() as int] == m0[i as int]);
                assert forall|k: int| 0 <= k < kept@.len() implies m0.contains(#[trigger] members_view(kept@)[k]) by {
                    if k < kv.len() {
                        assert(kv2[k] == kv[k]);
                    }
                }
                assert forall|k: int| 0 <= k < i + 1 && protected(child_path(curpath@, m0[k].0)) implies members_view(kept@).contains(#[trigger] m0[k]) by {
                    if k < i {
                        let j = choose|j: int| 0 <= j < kv.len() && kv[j] == m0[k];
                        assert(kv2[j] == m0[k]);
                    }
                }
                assert forall|k: int| 0 <= k < i + 1 && s.required.contains(m0[k].0) implies members_view(kept@).contains(#[trigger] m0[k]) by {
                    if k < i {
                        let j = choose|j: int| 0 <= j < kv.len() && kv[j] == m0[k];
                        assert(kv2[j] == m0[k]);
                    }
                }
                if member_names(m0).no_duplicates() {
                    assert forall|a: int, b: int| 0 <= a < b < kv2.len() implies member_names(kv2)[a] != member_names(kv2)[b] by {
                        if b == kv.len() {
                            assert(member_names(kv2)[b] == m0[i as int].0);
                        } else {
                            assert(member_names(kv)[a] != member_names(kv)[b]);
                        }
                    }
                    assert forall|k: int, q: int| 0 <= k < kept@.len() && i + 1 <= q < n implies #[trigger] members_view(kept@)[k].0 != #[trigger] m0[q].0 by {
                        if k == kv.len() {
                            assert(member_names(m0)[i as int] != member_names(m0)[q]);
                        } else {
                            assert(kv2[k] == kv[k]);
                        }
                    }
                }
            }
        } else {
            proof {
                assert forall|k: int| 0 <= k < i + 1 && protected(child_path(curpath@, m0[k].0)) implies members_view(kept@).contains(#[trigger] m0[k]) by {
                    if k == i {
                        assert(subpath@ == child_path(curpath@, m0[k].0));
                    }
                }
                assert forall|k: int| 0 <= k < i + 1 && s.required.contains(m0[k].0) implies members_view(kept@).contains(#[trigger] m0[k]) by {
                    if k == i {
                        assert(required);
                    }
                }
            }
        }
        i = i + 1;
    }
    let ghost k0 = members_view(kept@);
    let ghost hr = rng@;
    proof {
        assert(m0.take(n as int) =~= m0);
    }
    // each remaining field may be mutated
    let mut out: Vec<(String, JsonValue)> = Vec::new();
    let nk = kept.len();
    let mut j: usize = 0;
    let ghost mut hs: Seq<RngState> = seq![hr];
    let ghost mut ts: Seq<MutTrace> = Seq::empty();
    proof {
        assert forall|k: int| 0 <= k < k0.len() && integral(old_view) implies integral((#[trigger] k0[k]).1) by {
            assert(m0.contains(k0[k]));
            let w = choose|w: int| 0 <= w < m0.len() && m0[w] == k0[k];
        }
    }
    while j < nk
        invariant
            hs.len() == j + 1,
            hs[0] == hr,
            integral(old_view) ==> forall|k: int| 0 <= k < k0.len() ==> integral((#[trigger] k0[k]).1),
            old(resource)@ == old_view,
            hs[j as int] == rng@,
            ts.len() == j,
            forall|k: int|
                0 <= k < j ==> #[trigger] field_step(hs[k], s, curpath@, k0[k], members_view(out@)[k], hs[k + 1], ts[k]),
            j <= nk,
            k0.len() == nk,
            kept@.len() == nk - j,
            forall|k: int| 0 <= k < kept@.len() ==> (#[trigger] kept@[k]).0@ == k0[j + k].0 && kept@[k].1@ == k0[j + k].1,
            out@.len() == j,
            forall|k: int| 0 <= k < j ==> (#[trigger] members_view(out@)[k]).0 == k0[k].0,
            forall|k: int| 0 <= k < j && protected(child_path(curpath@, k0[k].0)) ==> #[trigger] members_view(out@)[k] == k0[k],
            forall|k: int| 0 <= k < k0.len() ==> m0.contains(#[trigger] k0[k]),
            object_mutable(old_view, s, curpath@),
            old_view == Json::Object(m0),
            !has_enum(s),
            s == constraint@,
            *props == constraint.properties,
            s.properties == prop_views(props@),
            patterns_ok(s) ==> forall|q: int| 0 <= q < s.properties.len() ==> patterns_ok(#[trigger] s.properties[q].1),
        decreases nk - j,
    {
        let ghost before = kept@;
        let (name, mut val) = kept.remove(0);
        proof {
            assert(name@ == k0[j as int].0 && val@ == k0[j as int].1);
            assert forall|k: int| 0 <= k < kept@.len() implies (#[trigger] kept@[k]).0@ == k0[j + 1 + k].0 && kept@[k].1@ == k0[j + 1 + k].1 by {
                assert(kept@[k] == before[k + 1]);
            }
        }
        let ghost hj = rng@;
        proof {
            assert(m0.contains(k0[j as int]));
        }
        match mutate_member(rng, &name, &mut val, constraint, curpath, Ghost(m0)) {
            Ok(()) => {},
            Err(e) => {
                return Err(e);
            },
        }
        let ghost out_before = members_view(out@);
        out.push((name, val));
        proof {
            let ov = members_view(out@);
            assert(ov =~= out_before.push((k0[j as int].0, val@)));
            let t = choose|t: MutTrace| #[trigger] field_step(hj, s, curpath@, k0[j as int], ov[j as int], rng@, t);
            let hs2 = hs.push(rng@);
            let ts2 = ts.push(t);
            assert forall|k: int| 0 <= k < j + 1 implies #[trigger] field_step(hs2[k], s, curpath@, k0[k], ov[k], hs2[k + 1], ts2[k]) by {
                if k < j {
                    assert(ov[k] == out_before[k]);
                    assert(hs2[k] == hs[k] && hs2[k + 1] == hs[k + 1] && ts2[k] == ts[k]);
                }
            }
            hs = hs2;
            ts = ts2;
        }
        j = j + 1;
    }
    let ghost o1 = members_view(out@);
    proof {
        lemma_steps_intro(hs, ts, s, curpath@, k0, o1);
        assert forall|k: int| 0 <= k < o1.len() implies #[trigger] member_names(o1)[k] == member_names(k0)[k] by {}
        if member_names(m0).no_duplicates() {
            assert(member_names(o1) =~= member_names(k0));
        }
    }
    proof {
        assert forall|j2: int| 0 <= j2 < o1.len() implies member_names(m0).contains(#[trigger] o1[j2].0)
            || added_field(s, curpath@, o1[j2]) by {
            assert(m0.contains(k0[j2]));
            let w = choose|w: int| 0 <= w < m0.len() && m0[w] == k0[j2];
            assert(member_names(m0)[w] == o1[j2].0);
        }
        assert forall|i2: int| 0 <= i2 < m0.len() && s.required.contains((#[trigger] m0[i2]).0) implies member_names(o1).contains(m0[i2].0) by {
            let w = choose|w: int| 0 <= w < k0.len() && k0[w] == m0[i2];
            assert(member_names(o1)[w] == m0[i2].0);
        }
    }
    // every missing field is generated
    let np = props.len();
    let mut q: usize = 0;
    while q < np
        invariant
            q <= np,
            np == props@.len(),
            s == constraint@,
            *props == constraint.properties,
            s.properties == prop_views(props@),
            generatable(s),
            is_object(s),
            !has_enum(s),
            patterns_ok(s) ==> forall|q2: int| 0 <= q2 < s.properties.len() ==> patterns_ok(#[trigger] s.properties[q2].1),
            member_names(o1).no_duplicates() ==> member_names(members_view(out@)).no_duplicates(),
            forall|q2: int| 0 <= q2 < q ==> member_names(members_view(out@)).contains(#[trigger] s.properties[q2].0),
            forall|k: int| 0 <= k < o1.len() ==> members_view(out@).contains(#[trigger] o1[k]),
            o1.len() <= out@.len(),
            forall|k: int| 0 <= k < o1.len() ==> #[trigger] members_view(out@)[k] == o1[k],
            hs.len() > 0 && hs[0] == hr && steps_through(hs, ts, s, curpath@, k0, o1),
            k0 == removal(h0, s, curpath@, m0).0,
            hr == removal(h0, s, curpath@, m0).1,
            old_view == Json::Object(m0),
            forall|j2: int|
                0 <= j2 < members_view(out@).len() ==> member_names(m0).contains(
                    (#[trigger] members_view(out@)[j2]).0,
                ) || added_field(s, curpath@, members_view(out@)[j2]),
        decreases np - q,
    {
        let ghost ov = members_view(out@);
        proof {
            assert(s.properties[q as int] == (props@[q as int].0@, props@[q as int].1@));
        }
        match crate::json::find_member(&out, props[q].0.as_str()) {
            Some(idx) => {
                proof {
                    assert(member_names(ov)[idx as int] == s.properties[q as int].0);
                }
            },
            None => {
                let mut subpath = String::new();
                push_str(&mut subpath, curpath);
                push_str(&mut subpath, props[q].0.as_str());
                push_char(&mut subpath, '.');
                proof {
                    assert(generatable(s.properties[q as int].1));
                }
                let v = match gen_property(rng, &props[q].1, subpath.as_str()) {
                    Ok(v) => v,
                    Err(e) => {
                        return Err(e);
                    },
                };
                out.push((props[q].0.clone(), v));
                proof {
                    let nv = members_view(out@);
                    assert(nv =~= ov.push((s.properties[q as int].0, v@)));
                    assert(member_names(nv)[ov.len() as int] == s.properties[q as int].0);
                    assert forall|q2: int| 0 <= q2 < q + 1 implies member_names(nv).contains(#[trigger] s.properties[q2].0) by {
                        if q2 < q {
                            let w = choose|w: int| 0 <= w < ov.len() && member_names(ov)[w] == s.properties[q2].0;
                            assert(member_names(nv)[w] == s.properties[q2].0);
                        }
                    }
                    assert forall|k: int| 0 <= k < o1.len() implies nv.contains(#[trigger] o1[k]) by {
                        let w = choose|w: int| 0 <= w < ov.len() && ov[w] == o1[k];
                        assert(nv[w] == o1[k]);
                    }
                    assert forall|k: int| 0 <= k < o1.len() implies #[trigger] nv[k] == o1[k] by {
                        assert(nv[k] == ov[k]);
                    }
                    assert(subpath@ =~= curpath@ + s.properties[q as int].0.push('.'));
                    assert(added_field(s, curpath@, nv[ov.len() as int]));
                    assert forall|j2: int| 0 <= j2 < nv.len() implies member_names(m0).contains((#[trigger] nv[j2]).0)
                        || added_field(s, curpath@, nv[j2]) by {
                        if j2 < ov.len() {
                            assert(nv[j2] == ov[j2]);
                        }
                    }
                    if member_names(ov).no_duplicates() {
                        assert forall|a: int, b: int| 0 <= a < b < nv.len() implies member_names(nv)[a] != member_names(nv)[b] by {
                            if b < ov.len() {
                                assert(member_names(ov)[a] != member_names(ov)[b]);
                            }
                        }
                    }
                }
            },
        }
        q = q + 1;
    }
    proof {
        lemma_object_view(out);
        let fin = members_view(out@);
        assert(k0.len() <= fin.len());
        assert forall|k: int| 0 <= k < k0.len() implies fin[k] == o1[k] by {}
        lemma_steps_prefix(hs, ts, s, curpath@, k0, o1, fin);
        assert(object_traced(old(rng)@, s, curpath@, m0, Json::Object(fin), MutTrace::Steps(hs, ts)));
        assert forall|i: int|
            0 <= i < m0.len() && protected(child_path(curpath@, (#[trigger] m0[i]).0)) implies fin.contains(m0[i]) by {
            let w = choose|w: int| 0 <= w < k0.len() && k0[w] == m0[i];
            assert(o1[w] == k0[w]);
        }
        assert forall|i2: int| 0 <= i2 < m0.len() && s.required.contains((#[trigger] m0[i2]).0) implies member_names(fin).contains(m0[i2].0) by {
            let w = choose|w: int| 0 <= w < o1.len() && member_names(o1)[w] == m0[i2].0;
            assert(fin.contains(o1[w]));
            let w2 = choose|w2: int| 0 <= w2 < fin.len() && fin[w2] == o1[w];
            assert(member_names(fin)[w2] == m0[i2].0);
        }
    }
    *resource = JsonValue::Object(out);
    Ok(())
}

/// The resource's top-level fields that mutation keeps as they are:
/// `apiVersion`, `kind` and `metadata`.
pub open spec fn protected_root_field(name: Seq<char>) -> bool {
    name == "apiVersion"@ || name == "kind"@ || name == "metadata"@
}

/// Below the root, the protected top-level fields have protected paths.
proof fn lemma_protected_root(name: Seq<char>)
    requires
        protected_root_field(name),
    ensures
        protected(child_path("$"@, name)),
{
    reveal_strlit("$");
    reveal_strlit("apiVersion");
    reveal_strlit("kind");
    reveal_strlit("metadata");
    reveal_strlit("$.apiVersion");
    reveal_strlit("$.kind");
    reveal_strlit("$.metadata");
    if name == "apiVersion"@ {
        assert(child_path("$"@, name) =~= "$.apiVersion"@);
    } else if name == "kind"@ {
        assert(child_path("$"@, name) =~= "$.kind"@);
    } else {
        assert(child_path("$"@, name) =~= "$.metadata"@);
    }
}

/// Mutates a whole resource with its narrowed schema, from the root `$`.
/// The resource keeps its `apiVersion`, `kind` and `metadata` members
/// unchanged, and every field of the schema is present afterwards.
pub fn mutate_resource(rng: &mut Rng, resource: &mut JsonValue, constraintcfg: &K8sResourceSpec) -> (r: Result<(), GenError>)
    requires
        object_mutable(old(resource)@, constraintcfg@, "$"@),
    ensures
        r is Ok && has_enum(constraintcfg@) ==> constraintcfg@.enum_values.contains(final(resource)@) || (
        constraintcfg@.enum_regex.len() > 0 && final(resource)@ is Str),
        r is Ok && !has_enum(constraintcfg@) ==> (final(resource)@ matches Json::Object(m) && {
            &&& (member_names(old(resource)@->Object_0).no_duplicates() ==> member_names(m).no_duplicates())
            &&& forall|k: int|
                0 <= k < constraintcfg@.properties.len() ==> member_names(m).contains(
                    #[trigger] constraintcfg@.properties[k].0,
                )
            &&& forall|i: int|
                0 <= i < old(resource)@->Object_0.len() && protected_root_field(
                    (#[trigger] old(resource)@->Object_0[i]).0,
                ) ==> m.contains(old(resource)@->Object_0[i])
            &&& forall|i: int|
                0 <= i < old(resource)@->Object_0.len() && constraintcfg@.required.contains(
                    (#[trigger] old(resource)@->Object_0[i]).0,
                ) ==> member_names(m).contains(old(resource)@->Object_0[i].0)
            &&& forall|i: int|
                0 <= i < m.len() ==> member_names(old(resource)@->Object_0).contains((#[trigger] m[i]).0)
                    || added_field(constraintcfg@, "$"@, m[i])
        }),
        r is Ok ==> object_stepped(old(rng)@, constraintcfg@, "$"@, old(resource)@->Object_0, final(resource)@),
        patterns_ok(constraintcfg@) && integral(old(resource)@) ==> r is Ok,
{
    let ghost before = resource@;
    proof {
        reveal_strlit("$");
    }
    let r = mutate_object(rng, resource, constraintcfg, "$");
    proof {
        if r is Ok && !has_enum(constraintcfg@) {
            let m0 = before->Object_0;
            assert forall|i: int| 0 <= i < m0.len() && protected_root_field(#[trigger] m0[i].0) implies protected(
                child_path("$"@, m0[i].0),
            ) by {
                lemma_protected_root(m0[i].0);
            }
        }
    }
    r
}

/// Whether a value can be mutated with schema `s` at `path` (see
/// [`value_mutable`]).
pub fn check_mutable(v: &JsonValue, s: &K8sResourceSpec, path: &str) -> (b: bool)
    ensures
        b == value_mutable(v@, s@, path@),
    decreases s,
{
    proof {
        lemma_view_fields(*s);
        lemma_type_names();
    }
    let ghost sv = s@;
    match v {
        JsonValue::Bool(_) => true,
        JsonValue::Int(_) | JsonValue::Number(_) => {
            proof {
                reveal_strlit("int32");
                reveal_strlit("int64");
            }
            match &s.format {
                None => true,
                Some(f) => str_eq(f.as_str(), "int32") || str_eq(f.as_str(), "int64"),
            }
        },
        JsonValue::Str(_) => true,
        JsonValue::Array(a) => {
            proof {
                lemma_array_view(*a);
            }
            let ghost av = json_seq(a@);
            if !crate::generator::gen::check_generatable(s) || !str_eq(s._type.as_str(), "array")
                || s._enum.len() > 0 || s._enum_regex.len() > 0 || a.len() == 0 {
                return false;
            }
            let items: &K8sResourceSpec = match &s.items {
                Some(b) => b,
                None => {
                    return false;
                },
            };
            proof {
                assert(sv.items == Some(Box::new(items@)));
                assert(decreases_to!(*s => s.items));
                assert(decreases_to!(*s => *items));
            }
            let n = a.len();
            let mut i: usize = 0;
            while i < n
                invariant
                    n == a@.len(),
                    av == json_seq(a@),
                    v@ == Json::Array(av),
                    sv == s@,
                    s@.items == Some(Box::new(items@)),
                    i <= n,
                    decreases_to!(*s => *items),
                    forall|j: int| 0 <= j < i ==> value_mutable(#[trigger] av[j], items@, path@),
                decreases n - i,
            {
                proof {
                    assert(av[i as int] == a@[i as int]@);
                }
                if !check_mutable(&a[i], items, path) {
                    proof {
                        if value_mutable(v@, sv, path@) {
                            lemma_array_member(av, sv, path@, i as int);
                        }
                    }
                    return false;
                }
                i = i + 1;
            }
            true
        },
        JsonValue::Object(m) => {
            proof {
                lemma_object_view(*m);
            }
            let ghost mv = members_view(m@);
            if !crate::generator::gen::check_generatable(s) {
                return false;
            }
            if s._enum.len() > 0 || s._enum_regex.len() > 0 {
                return true;
            }
            if !str_eq(s._type.as_str(), "object") {
                return false;
            }
            let props = &s.properties;
            let n = m.len();
            let mut i: usize = 0;
            while i < n
                invariant
                    n == m@.len(),
                    mv == members_view(m@),
                    v@ == Json::Object(mv),
                    sv == s@,
                    sv.properties == prop_views(props@),
                    *props == s.properties,
                    generatable(sv),
                    is_object(sv),
                    !has_enum(sv),
                    i <= n,
                    forall|j: int|
                        0 <= j < i ==> {
                            let k = field_index(sv.properties, (#[trigger] mv[j]).0);
                            protected(child_path(path@, mv[j].0)) || k < 0 || (k < sv.properties.len()
                                && value_mutable(mv[j].1, sv.properties[k].1, child_path(path@, mv[j].0)))
                        },
                decreases n - i,
            {
                let subpath = join_child(path, m[i].0.as_str());
                proof {
                    assert(mv[i as int] == (m@[i as int].0@, m@[i as int].1@));
                }
                if !is_protected(subpath.as_str()) {
                    match find_prop(props, m[i].0.as_str()) {
                        None => {
                            proof {
                                crate::generator::gen::lemma_field_index_name(sv.properties, mv[i as int].0);
                                let fi = field_index(sv.properties, mv[i as int].0);
                                if fi != -1 {
                                    assert(names(sv.properties)[fi] == mv[i as int].0);
                                }
                            }
                        },
                        Some(k) => {
                            proof {
                                assert(sv.properties[k as int] == (props@[k as int].0@, props@[k as int].1@));
                                lemma_field_index(sv.properties, k as int);
                                broadcast use vstd::std_specs::vec::group_vec_axioms;
                                assert(decreases_to!(*s => s.properties));
                                assert(decreases_to!(s.properties => s.properties[k as int]));
                                assert(decreases_to!(s.properties[k as int] => s.properties[k as int].1));
                            }
                            if !check_mutable(&m[i].1, &props[k].1, subpath.as_str()) {
                                proof {
                                    if value_mutable(v@, sv, path@) {
                                        lemma_object_member(mv, sv, path@, i as int);
                                    }
                                }
                                return false;
                            }
                        },
                    }
                }
                i = i + 1;
            }
            true
        },
        _ => false,
    }
}

/// Whether `mutate_object` can mutate `v` with schema `s` at `path` (see
/// [`object_mutable`]).
pub fn check_object_mutable(v: &JsonValue, s: &K8sResourceSpec, path: &str) -> (b: bool)
    ensures
        b == object_mutable(v@, s@, path@),
{
    proof {
        lemma_view_fields(*s);
    }
    if !crate::generator::gen::check_generatable(s) {
        return false;
    }
    if s._enum.len() > 0 || s._enum_regex.len() > 0 {
        return true;
    }
    match v {
        JsonValue::Object(_) => check_mutable(v, s, path),
        _ => false,
    }
}

} // verus!
