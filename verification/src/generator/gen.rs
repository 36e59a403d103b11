//! Random values that conform to a narrowed schema.

use vstd::prelude::*;
use crate::generator::rand::{
    Draw, Rng, RngState, range_draw, range_state, reordered, xorshift_sample, xorshift_shuffle, xorshift_uniform, gen_printable_string, gen_range, gen_range_usize, printable_chars, rand_date_time,
    rand_int, rand_int_i32, pattern_usable, compile_pattern, rand_str_regex, rfc3339_seconds, shuffle,
};
use crate::json::{
    Json, JsonValue, json_seq, member_names, members_view, lemma_array_view, lemma_object_view,
    set_member, member, field, lemma_member_found, find_member,
};
use crate::schema::{K8sResourceSpec, Schema, is_array, is_object, lemma_view_fields, names, prop_views};
use crate::text::{contains, contains_seq, occurs_at, decimal, lowercase, owned, push_char, push_decimal, str_eq, to_lowercase};
use crate::text::push_str as push_str_;

verus! {

/// Why a value cannot be generated.
#[derive(Debug)]
pub enum GenError {
    /// No generator can be built from the pattern: its repetitions are too
    /// large, or `rand_regex` does not accept it.
    BadRegex(String),
    /// Arithmetic was chosen for a number that is not an `i64`; holds the
    /// number's text.
    NotAnInteger(String),
}

/// The pattern of Kubernetes quantities such as `500m` or `-3G`.
pub open spec fn quantity_pattern() -> Seq<char> {
    "([+-]?[0-9]+)(m|k|M|G|T|P|E)"@
}

/// The pattern of generated names.
pub open spec fn name_pattern() -> Seq<char> {
    "[a-z]{1,15}"@
}

/// Whether generators can be built from the quantity and name patterns
/// that string generation draws from (see [`pattern_usable`]). Where it does, generation fails only on a
/// schema's own value patterns (see [`patterns_ok`]).
pub fn fixed_patterns_compile() -> (r: bool)
    ensures
        r == (pattern_usable(quantity_pattern()) && pattern_usable(name_pattern())),
{
    proof {
        reveal_strlit("([+-]?[0-9]+)(m|k|M|G|T|P|E)");
        reveal_strlit("[a-z]{1,15}");
    }
    let quantity = compile_pattern("([+-]?[0-9]+)(m|k|M|G|T|P|E)").is_some();
    let name = compile_pattern("[a-z]{1,15}").is_some();
    quantity && name
}

/// The characters of generated user and group names.
pub open spec fn username_chars() -> Seq<char> {
    "_-abcdefghijklmnopqrstuvwxyz"@
}

/// The kinds of generated strings.
#[derive(Debug, Clone, Copy, PartialEq, Eq, Structural)]
pub enum StringKind {
    Quantity,
    Name,
    Port,
    Ip,
    UserName,
    DateTime,
    IntOrString,
    Printable,
}

/// What kind of string a field gets, from its name (in lower case), its
/// format, and whether it is a quantity.
pub open spec fn string_kind(propname: Seq<char>, format: Option<Seq<char>>, is_quant: bool) -> StringKind {
    let lower = lowercase(propname);
    if is_quant {
        StringKind::Quantity
    } else if lower == "name"@ {
        StringKind::Name
    } else if contains_seq(lower, "port"@) {
        StringKind::Port
    } else if contains_seq(lower, "ip"@) || lower == "host"@ {
        StringKind::Ip
    } else if contains_seq(lower, "group"@) || lower == "runasuser"@ || contains_seq(lower, "username"@) {
        StringKind::UserName
    } else {
        match format {
            Some(f) => if f == "date-time"@ {
                StringKind::DateTime
            } else if f == "int-or-string"@ {
                StringKind::IntOrString
            } else {
                StringKind::Printable
            },
            None => StringKind::Printable,
        }
    }
}

/// A string field called `host` (in any case) is an address: whatever its
/// format, a value that fits the field is the text of four numbers below
/// 256 joined by dots, generation has no pattern to fail on, and the value
/// drawn is the address drawn from the generator's state.
pub proof fn law_host_is_an_address(propname: Seq<char>, format: Option<Seq<char>>, h: RngState, v: Json)
    requires
        lowercase(propname) == "host"@,
    ensures
        string_fits(v, string_kind(propname, format, false)) ==> (v matches Json::Str(s) && is_ip_text(s)),
        drawn_string(h, string_kind(propname, format, false), v) ==> v == Json::Str(drawn_ip(h)),
        kind_pattern(string_kind(propname, format, false)) is None,
{
    reveal_strlit("host");
    reveal_strlit("name");
    reveal_strlit("port");
    let lower = lowercase(propname);
    assert(lower != "name"@) by {
        assert(lower[0] != "name"@[0]);
    }
    assert(!contains_seq(lower, "port"@)) by {
        if contains_seq(lower, "port"@) {
            let i = choose|i: int| occurs_at(lower, "port"@, i);
            assert(i == 0);
            assert(lower.subrange(0, 4)[0] == lower[0]);
        }
    }
}

/// A string field whose name holds `ip` (in any case), and is not `name`
/// and holds no `port`, is an address: a value that fits it is the text of
/// four numbers below 256 joined by dots, and the value drawn is the
/// address drawn from the generator's state.
pub proof fn law_ip_fields_are_addresses(propname: Seq<char>, format: Option<Seq<char>>, h: RngState, v: Json)
    requires
        contains_seq(lowercase(propname), "ip"@),
        !contains_seq(lowercase(propname), "port"@),
        lowercase(propname) != "name"@,
    ensures
        string_fits(v, string_kind(propname, format, false)) ==> (v matches Json::Str(s) && is_ip_text(s)),
        drawn_string(h, string_kind(propname, format, false), v) ==> v == Json::Str(drawn_ip(h)),
{
}

/// Four decimal numbers below 256 joined by dots.
pub open spec fn is_ip_text(s: Seq<char>) -> bool {
    exists|a: nat, b: nat, c: nat, d: nat|
        a < 256 && b < 256 && c < 256 && d < 256 && s == decimal(a).push('.') + decimal(b).push('.')
            + decimal(c).push('.') + decimal(d)
}

/// Text of a length in `lo..hi` whose characters all come from `cs`.
pub open spec fn text_from(s: Seq<char>, cs: Seq<char>, lo: int, hi: int) -> bool {
    &&& lo <= s.len() < hi
    &&& forall|i: int| 0 <= i < s.len() ==> cs.contains(#[trigger] s[i])
}

/// Whether `v` is a value that a string field of the given kind gets.
pub open spec fn string_fits(v: Json, kind: StringKind) -> bool {
    match kind {
        StringKind::Quantity => v is Str,
        StringKind::Name => v is Str,
        StringKind::Port => v matches Json::Str(s) && exists|n: nat| n < 65535 && s == decimal(n),
        StringKind::Ip => v matches Json::Str(s) && is_ip_text(s),
        StringKind::UserName => v matches Json::Str(s) && text_from(s, username_chars(), 1, 15),
        StringKind::DateTime => v matches Json::Str(s) && exists|ts: int|
            -8_000_000_000_000 <= ts <= 8_000_000_000_000 && s == rfc3339_seconds(ts),
        StringKind::IntOrString => v is Int,
        StringKind::Printable => v matches Json::Str(s) && text_from(s, printable_chars(), 1, 15),
    }
}

/// The pattern behind a kind of string, for the kinds that have one.
pub open spec fn kind_pattern(kind: StringKind) -> Option<Seq<char>> {
    match kind {
        StringKind::Quantity => Some(quantity_pattern()),
        StringKind::Name => Some(name_pattern()),
        _ => None,
    }
}

/// How a generated string is tied to the generator's state `h` it was
/// drawn from: a pattern's kind is the pattern's sample, a port is the
/// decimal text of a draw below 65535, an int-or-string value is a draw over
/// `i64`, and user names and printable text have the length of a draw in
/// `1..15`.
pub open spec fn drawn_string(h: RngState, kind: StringKind, v: Json) -> bool {
    match kind {
        StringKind::Quantity => v == Json::Str(xorshift_sample(h, quantity_pattern())),
        StringKind::Name => v == Json::Str(xorshift_sample(h, name_pattern())),
        StringKind::Port => v == Json::Str(decimal(range_draw(h, 0, 65535) as nat)),
        StringKind::Ip => v == Json::Str(drawn_ip(h)),
        StringKind::IntOrString => v == Json::Int(range_draw(h, i64::MIN as int, i64::MAX as int) as i64),
        StringKind::UserName => v matches Json::Str(t) && t.len() == xorshift_uniform(h, 1, 15),
        StringKind::Printable => v matches Json::Str(t) && t.len() == xorshift_uniform(h, 1, 15),
        _ => true,
    }
}

/// The address drawn from state `h`: four numbers below 256, drawn in turn.
pub open spec fn drawn_ip(h: RngState) -> Seq<char> {
    let h1 = range_state(h, 0, 256);
    let h2 = range_state(h1, 0, 256);
    let h3 = range_state(h2, 0, 256);
    decimal(range_draw(h, 0, 256) as nat).push('.') + decimal(range_draw(h1, 0, 256) as nat).push('.') + decimal(
        range_draw(h2, 0, 256) as nat,
    ).push('.') + decimal(range_draw(h3, 0, 256) as nat)
}

/// An address made of four random numbers below 256.
fn gen_ip(rng: &mut Rng) -> (r: JsonValue)
    ensures
        r@ matches Json::Str(s) && is_ip_text(s),
        r@ == Json::Str(drawn_ip(old(rng)@)),
{
    let a = gen_range(rng, 0, 256);
    let b = gen_range(rng, 0, 256);
    let c = gen_range(rng, 0, 256);
    let d = gen_range(rng, 0, 256);
    let mut ip = String::new();
    push_decimal(&mut ip, a as u64);
    push_char(&mut ip, '.');
    push_decimal(&mut ip, b as u64);
    push_char(&mut ip, '.');
    push_decimal(&mut ip, c as u64);
    push_char(&mut ip, '.');
    push_decimal(&mut ip, d as u64);
    proof {
        let s = ip@;
        assert(s =~= decimal(a as nat).push('.') + decimal(b as nat).push('.') + decimal(c as nat).push('.')
            + decimal(d as nat));
        assert(is_ip_text(s));
    }
    JsonValue::Str(ip)
}

/// A random value for a string field, chosen by the field's name, format
/// and quantity flag (see [`string_kind`]).
pub fn gen_string(rng: &mut Rng, propname: &str, format: &Option<String>, is_quant: bool) -> (r: Result<JsonValue, GenError>)
    ensures
        match r {
            Ok(v) => string_fits(v@, string_kind(propname@, crate::schema::opt_str(*format), is_quant)),
            Err(_) => match kind_pattern(string_kind(propname@, crate::schema::opt_str(*format), is_quant)) {
                Some(p) => !pattern_usable(p),
                None => false,
            },
        },
        match kind_pattern(string_kind(propname@, crate::schema::opt_str(*format), is_quant)) {
            Some(p) => r is Ok <==> pattern_usable(p),
            None => r is Ok,
        },
        r matches Ok(v) ==> drawn_string(old(rng)@, string_kind(propname@, crate::schema::opt_str(*format), is_quant), v@),
{
    proof {
        reveal_strlit("([+-]?[0-9]+)(m|k|M|G|T|P|E)");
        reveal_strlit("[a-z]{1,15}");
    }
    if is_quant {
        return match rand_str_regex(rng, "([+-]?[0-9]+)(m|k|M|G|T|P|E)") {
            Some(s) => Ok(JsonValue::Str(s)),
            None => Err(GenError::BadRegex(owned("([+-]?[0-9]+)(m|k|M|G|T|P|E)"))),
        };
    }
    let lower = to_lowercase(propname);
    let l = lower.as_str();
    if str_eq(l, "name") {
        return match rand_str_regex(rng, "[a-z]{1,15}") {
            Some(s) => Ok(JsonValue::Str(s)),
            None => Err(GenError::BadRegex(owned("[a-z]{1,15}"))),
        };
    }
    if contains(l, "port") {
        let n = gen_range(rng, 0, 65535);
        let s = crate::text::u64_to_string(n as u64);
        proof {
            assert(exists|k: nat| k < 65535 && s@ == decimal(k));
        }
        return Ok(JsonValue::Str(s));
    }
    if contains(l, "ip") || str_eq(l, "host") {
        return Ok(gen_ip(rng));
    }
    if contains(l, "group") || str_eq(l, "runasuser") || contains(l, "username") {
        let len = gen_range_usize(rng, 1, 15);
        proof {
            reveal_strlit("_-abcdefghijklmnopqrstuvwxyz");
        }
        let s = gen_printable_string(rng, len, Some("_-abcdefghijklmnopqrstuvwxyz"));
        return Ok(JsonValue::Str(s));
    }
    match format {
        Some(f) => {
            if str_eq(f.as_str(), "date-time") {
                return Ok(JsonValue::Str(rand_date_time(rng)));
            } else if str_eq(f.as_str(), "int-or-string") {
                return Ok(JsonValue::Int(rand_int(rng)));
            }
        },
        None => {},
    }
    let len = gen_range_usize(rng, 1, 15);
    Ok(JsonValue::Str(gen_printable_string(rng, len, None)))
}

/// A random boolean.
pub fn gen_bool(rng: &mut Rng) -> (r: JsonValue)
    ensures
        r@ == Json::Bool(range_draw(old(rng)@, 0, 2) == 1),
        final(rng)@ == range_state(old(rng)@, 0, 2),
{
    JsonValue::Bool(gen_range(rng, 0, 2) == 1)
}

/// The range an integer field's value is drawn from, by the field's name
/// and format.
pub open spec fn int_range(propname: Seq<char>, format: Option<Seq<char>>) -> (int, int) {
    let lower = lowercase(propname);
    if contains_seq(lower, "port"@) {
        (0, 65535)
    } else if contains_seq(lower, "group"@) || lower == "runasuser"@ || contains_seq(lower, "username"@) {
        (0, 2147483647)
    } else if format == Some("int32"@) {
        (i32::MIN as int, i32::MAX as int)
    } else {
        (i64::MIN as int, i64::MAX as int)
    }
}

/// A random integer for an integer field (see [`int_range`]).
fn gen_int(rng: &mut Rng, propname: &str, format: &Option<String>) -> (r: JsonValue)
    ensures
        r@ matches Json::Int(n) && int_range(propname@, crate::schema::opt_str(*format)).0 <= n
            < int_range(propname@, crate::schema::opt_str(*format)).1,
        r@ == Json::Int(
            range_draw(
                old(rng)@,
                int_range(propname@, crate::schema::opt_str(*format)).0,
                int_range(propname@, crate::schema::opt_str(*format)).1,
            ) as i64,
        ),
        final(rng)@ == range_state(
            old(rng)@,
            int_range(propname@, crate::schema::opt_str(*format)).0,
            int_range(propname@, crate::schema::opt_str(*format)).1,
        ),
{
    let lower = to_lowercase(propname);
    let l = lower.as_str();
    if contains(l, "port") {
        return JsonValue::Int(gen_range(rng, 0, 65535));
    }
    if contains(l, "group") || str_eq(l, "runasuser") || contains(l, "username") {
        return JsonValue::Int(gen_range(rng, 0, 2147483647));
    }
    match format {
        Some(f) => {
            if str_eq(f.as_str(), "int32") {
                return JsonValue::Int(rand_int_i32(rng) as i64);
            }
        },
        None => {},
    }
    JsonValue::Int(rand_int(rng))
}

/// The type names are distinct texts.
pub proof fn lemma_type_names()
    ensures
        "object"@ != "string"@,
        "object"@ != "boolean"@,
        "object"@ != "array"@,
        "object"@ != "integer"@,
        "object"@ != "number"@,
        "string"@ != "boolean"@,
        "string"@ != "array"@,
        "string"@ != "integer"@,
        "string"@ != "number"@,
        "boolean"@ != "array"@,
        "boolean"@ != "integer"@,
        "boolean"@ != "number"@,
        "array"@ != "integer"@,
        "array"@ != "number"@,
{
    reveal_strlit("object");
    reveal_strlit("string");
    reveal_strlit("boolean");
    reveal_strlit("array");
    reveal_strlit("integer");
    reveal_strlit("number");
    assert("object"@[0] != "string"@[0]);
    assert("object"@[0] != "boolean"@[0]);
    assert("object"@[0] != "array"@[0]);
    assert("object"@[0] != "integer"@[0]);
    assert("object"@[0] != "number"@[0]);
    assert("string"@[0] != "boolean"@[0]);
    assert("string"@[0] != "array"@[0]);
    assert("string"@[0] != "integer"@[0]);
    assert("string"@[0] != "number"@[0]);
    assert("boolean"@[0] != "array"@[0]);
    assert("boolean"@[0] != "integer"@[0]);
    assert("boolean"@[0] != "number"@[0]);
    assert("array"@[0] != "integer"@[0]);
    assert("array"@[0] != "number"@[0]);
}

/// The position of the (last) field called `name`, or -1.
pub open spec fn field_index(props: Seq<(Seq<char>, Schema)>, name: Seq<char>) -> int
    decreases props.len(),
{
    if props.len() == 0 {
        -1
    } else if props.last().0 == name {
        props.len() - 1
    } else {
        field_index(props.drop_last(), name)
    }
}

/// With distinct names, the field at position `k` is the one found by its
/// name.
pub proof fn lemma_field_index(props: Seq<(Seq<char>, Schema)>, k: int)
    requires
        names(props).no_duplicates(),
        0 <= k < props.len(),
    ensures
        field_index(props, props[k].0) == k,
    decreases props.len(),
{
    if k < props.len() - 1 {
        assert(names(props)[k] != names(props)[props.len() - 1]);
        let d = props.drop_last();
        assert(names(d).no_duplicates()) by {
            assert forall|a: int, b: int| 0 <= a < b < d.len() implies names(d)[a] != names(d)[b] by {
                assert(names(props)[a] != names(props)[b]);
            }
        }
        assert(d[k] == props[k]);
        lemma_field_index(d, k);
    }
}

/// A position found by name holds that name.
pub proof fn lemma_field_index_name(props: Seq<(Seq<char>, Schema)>, name: Seq<char>)
    ensures
        field_index(props, name) == -1 || (0 <= field_index(props, name) < props.len()
            && props[field_index(props, name)].0 == name),
    decreases props.len(),
{
    if props.len() > 0 && props.last().0 != name {
        lemma_field_index_name(props.drop_last(), name);
    }
}

/// Whether the node brings values of its own (an enum, or value patterns).
pub open spec fn has_enum(s: Schema) -> bool {
    s.enum_values.len() > 0 || s.enum_regex.len() > 0
}

/// The bounds on an array's length: its own, or one to twenty.
pub open spec fn array_bounds(s: Schema) -> (usize, usize) {
    match s.minmax {
        Some(mm) => mm,
        None => (1usize, 20usize),
    }
}

/// The length of a generated array, drawn from its bounds, both included.
pub open spec fn array_length(h: RngState, s: Schema) -> int {
    xorshift_uniform(h, array_bounds(s).0 as u64, (array_bounds(s).1 + 1) as u64) as int
}

/// Whether `v` is a value that the generator may give the field `name` with
/// schema `s`: one of its values (or a string, when it has value patterns);
/// otherwise a value of its type: an object holding every required field
/// and only fields of the schema, and at least one, each conforming in turn
/// (`null` when the schema has no fields at all), a string of the kind its name and format
/// call for, a boolean, an array whose length is within bounds and whose
/// elements conform, or an integer from the range its name and format call
/// for.
pub open spec fn conforms(v: Json, s: Schema, name: Seq<char>) -> bool
    decreases s,
{
    if has_enum(s) {
        s.enum_values.contains(v) || (s.enum_regex.len() > 0 && v is Str)
    } else if is_object(s) {
        match v {
            Json::Null => s.required.len() == 0 && s.properties.len() == 0,
            Json::Object(m) => {
                &&& m.len() > 0
                &&& member_names(m).no_duplicates()
                &&& forall|r: int|
                    0 <= r < s.required.len() ==> member_names(m).contains(#[trigger] s.required[r])
                &&& forall|i: int|
                    0 <= i < m.len() ==> {
                        let k = field_index(s.properties, (#[trigger] m[i]).0);
                        0 <= k < s.properties.len() && conforms(m[i].1, s.properties[k].1, m[i].0)
                    }
            },
            _ => false,
        }
    } else if s.ty == "string"@ {
        string_fits(v, string_kind(name, s.format, s.is_quant))
    } else if s.ty == "boolean"@ {
        v is Bool
    } else if is_array(s) {
        match v {
            Json::Array(a) => {
                &&& s.items is Some
                &&& array_bounds(s).0 <= a.len() <= array_bounds(s).1
                &&& forall|i: int| 0 <= i < a.len() ==> conforms(#[trigger] a[i], *s.items->0, name)
            },
            _ => false,
        }
    } else if s.ty == "integer"@ || s.ty == "number"@ {
        v matches Json::Int(n) && int_range(name, s.format).0 <= n < int_range(name, s.format).1
    } else {
        false
    }
}

/// Whether the generator can walk the schema without failing on its
/// shape: every node without values of its own has a known type, objects
/// have distinct field names and require only fields they have, and arrays
/// have an element schema and sound bounds.
pub open spec fn generatable(s: Schema) -> bool
    decreases s,
{
    !has_enum(s) ==> {
        &&& (is_object(s) || s.ty == "string"@ || s.ty == "boolean"@ || is_array(s) || s.ty == "integer"@
            || s.ty == "number"@)
        &&& (is_object(s) ==> {
            &&& names(s.properties).no_duplicates()
            &&& s.properties.len() < usize::MAX
            &&& forall|r: int| 0 <= r < s.required.len() ==> names(s.properties).contains(#[trigger] s.required[r])
            &&& forall|k: int| 0 <= k < s.properties.len() ==> generatable(#[trigger] s.properties[k].1)
        })
        &&& (is_array(s) ==> {
            &&& s.items is Some
            &&& array_bounds(s).0 <= array_bounds(s).1 < usize::MAX
            &&& generatable(*s.items->0)
        })
    }
}

/// Whether every pattern the generator may use below `s` compiles: the
/// node's value patterns, the quantity and name patterns, and those below.
pub open spec fn patterns_ok(s: Schema) -> bool
    decreases s,
{
    &&& pattern_usable(quantity_pattern())
    &&& pattern_usable(name_pattern())
    &&& forall|i: int| 0 <= i < s.enum_regex.len() ==> pattern_usable(#[trigger] s.enum_regex[i])
    &&& !has_enum(s) ==> {
        &&& (is_object(s) ==> forall|k: int| 0 <= k < s.properties.len() ==> patterns_ok(#[trigger] s.properties[k].1))
        &&& (is_array(s) && s.items is Some ==> patterns_ok(*s.items->0))
    }
}

/// An object conforms to an object schema when its names are distinct, it
/// holds every required field, and each member conforms to its field.
proof fn lemma_conforms_object(m: Seq<(Seq<char>, Json)>, s: Schema, name: Seq<char>)
    requires
        !has_enum(s),
        is_object(s),
        m.len() > 0,
        member_names(m).no_duplicates(),
        forall|r: int| 0 <= r < s.required.len() ==> member_names(m).contains(#[trigger] s.required[r]),
        forall|i: int|
            0 <= i < m.len() ==> {
                let k = field_index(s.properties, (#[trigger] m[i]).0);
                0 <= k < s.properties.len() && conforms(m[i].1, s.properties[k].1, m[i].0)
            },
    ensures
        conforms(Json::Object(m), s, name),
{
}

/// The value drawn from a node's own values on a generator in state `h`:
/// with both values and value patterns, a draw in `0..2` picks the values
/// on 0; then a draw picks one of them, or a draw picks a pattern and the
/// pattern's sample is taken.
pub open spec fn enum_pick(h: RngState, values: Seq<Json>, patterns: Seq<Seq<char>>) -> Json {
    let both = values.len() > 0 && patterns.len() > 0;
    let h1 = if both {
        range_state(h, 0, 2)
    } else {
        h
    };
    let pick_values = if both {
        range_draw(h, 0, 2) == 0
    } else {
        values.len() > 0
    };
    if pick_values {
        values[xorshift_uniform(h1, 0, values.len() as u64) as int]
    } else {
        let k = xorshift_uniform(h1, 0, patterns.len() as u64);
        Json::Str(xorshift_sample(h1.after(Draw::Uniform(0, patterns.len() as u64)), patterns[k as int]))
    }
}

/// A value from the node's own values: one of its enum values, or a string
/// from one of its value patterns; a fair coin picks between the two when
/// it has both. Nothing when it has neither.
pub fn rand_enum_val(rng: &mut Rng, _enum: &Vec<JsonValue>, _enum_regex: &Vec<String>) -> (r: Result<Option<JsonValue>, GenError>)
    ensures
        r matches Ok(None) <==> _enum@.len() == 0 && _enum_regex@.len() == 0,
        r matches Ok(Some(v)) ==> json_seq(_enum@).contains(v@) || (_enum_regex@.len() > 0 && v@ is Str),
        (forall|i: int| 0 <= i < _enum_regex@.len() ==> pattern_usable(#[trigger] _enum_regex@[i]@)) ==> r is Ok,
        r matches Ok(Some(v)) ==> v@ == enum_pick(old(rng)@, json_seq(_enum@), crate::conf::str_seq(_enum_regex@)),
        r matches Ok(None) ==> final(rng)@ == old(rng)@,
{
    let ghost h = rng@;
    let ne = _enum.len();
    let nr = _enum_regex.len();
    let pick_enum = if ne > 0 && nr > 0 {
        gen_range(rng, 0, 2) == 0
    } else {
        ne > 0
    };
    if pick_enum {
        let i = gen_range_usize(rng, 0, ne);
        let v = _enum[i].deep_copy();
        proof {
            assert(json_seq(_enum@)[i as int] == v@);
        }
        return Ok(Some(v));
    }
    if nr > 0 {
        let i = gen_range_usize(rng, 0, nr);
        return match rand_str_regex(rng, _enum_regex[i].as_str()) {
            Some(s) => Ok(Some(JsonValue::Str(s))),
            None => Err(GenError::BadRegex(_enum_regex[i].clone())),
        };
    }
    Ok(None)
}

/// The position of the field called `name`.
pub(crate) fn find_prop(props: &Vec<(String, K8sResourceSpec)>, name: &str) -> (r: Option<usize>)
    ensures
        match r {
            Some(i) => i < props@.len() && props@[i as int].0@ == name@,
            None => !names(prop_views(props@)).contains(name@),
        },
{
    let n = props.len();
    let mut i: usize = 0;
    while i < n
        invariant
            n == props@.len(),
            i <= n,
            forall|k: int| 0 <= k < i ==> props@[k].0@ != name@,
        decreases n - i,
    {
        if str_eq(props[i].0.as_str(), name) {
            return Some(i);
        }
        i = i + 1;
    }
    proof {
        if names(prop_views(props@)).contains(name@) {
            let k = choose|k: int| 0 <= k < n && names(prop_views(props@))[k] == name@;
            assert(props@[k].0@ == name@);
        }
    }
    None
}

/// Whether `v` holds `s`.
pub(crate) fn holds(v: &Vec<String>, s: &str) -> (b: bool)
    ensures
        b == crate::conf::str_seq(v@).contains(s@),
{
    let n = v.len();
    let mut i: usize = 0;
    while i < n
        invariant
            n == v@.len(),
            i <= n,
            forall|k: int| 0 <= k < i ==> v@[k]@ != s@,
        decreases n - i,
    {
        if str_eq(v[i].as_str(), s) {
            proof {
                assert(crate::conf::str_seq(v@)[i as int] == s@);
            }
            return true;
        }
        i = i + 1;
    }
    false
}

/// A random array for an array field: between the array's bounds many
/// elements, each generated from the element schema.
fn gen_array(rng: &mut Rng, spec: &K8sResourceSpec, propname: &str) -> (r: Result<JsonValue, GenError>)
    requires
        is_array(spec@),
        !has_enum(spec@),
        generatable(spec@),
    ensures
        r matches Ok(v) ==> conforms(v@, spec@, propname@),
        r matches Ok(v) ==> (v@ matches Json::Array(a) && a.len() == array_length(old(rng)@, spec@)),
        r matches Ok(v) ==> generated(old(rng)@, spec@, propname@, v@),
        patterns_ok(spec@) ==> r is Ok,
    decreases spec, 0nat,
{
    let items: &K8sResourceSpec = match &spec.items {
        Some(b) => b,
        None => {
            return Ok(JsonValue::Null);
        },
    };
    proof {
        lemma_type_names();
        assert(spec@.items == Some(Box::new(items@)));
        assert(decreases_to!(*spec => spec.items));
        assert(decreases_to!(*spec => *items));
        assert(array_bounds(spec@) == match spec.minmax {
            Some(mm) => mm,
            None => (1usize, 20usize),
        });
    }
    let (min, max) = match spec.minmax {
        Some(mm) => mm,
        None => (1, 20),
    };
    let ghost h0 = rng@;
    let count = gen_range_usize(rng, min, max + 1);
    let mut arr: Vec<JsonValue> = Vec::new();
    let mut i: usize = 0;
    let ghost mut hs: Seq<RngState> = seq![rng@];
    let ghost mut ts: Seq<GenTrace> = Seq::empty();
    proof {
        assert(json_seq(arr@) =~= Seq::<Json>::empty());
    }
    while i < count
        invariant
            i <= count,
            arr@.len() == i,
            generatable(items@),
            patterns_ok(spec@) ==> patterns_ok(items@),
            decreases_to!(*spec => *items),
            forall|k: int| 0 <= k < i ==> conforms(#[trigger] arr@[k]@, items@, propname@),
            spec@.items == Some(Box::new(items@)),
            hs.len() == i + 1,
            hs[0] == h0.after(Draw::Uniform(min as u64, (max + 1) as u64)),
            hs[i as int] == rng@,
            gen_elems(hs, ts, spec@, propname@, json_seq(arr@)),
            ts.len() == i,
        decreases count - i,
    {
        let ghost hi = rng@;
        let ghost a_before = json_seq(arr@);
        let v = gen_property(rng, items, propname);
        match v {
            Ok(v) => {
                arr.push(v);
                proof {
                    let t = choose|t: GenTrace| #[trigger] gen_traced(hi, items@, propname@, v@, t);
                    let a2 = json_seq(arr@);
                    assert(a2 =~= a_before.push(v@));
                    assert(a2.drop_last() =~= a_before);
                    let hs2 = hs.push(rng@);
                    let ts2 = ts.push(t);
                    assert(hs2.drop_last() =~= hs);
                    assert(ts2.drop_last() =~= ts);
                    assert(gen_elems(hs2, ts2, spec@, propname@, a2));
                    hs = hs2;
                    ts = ts2;
                }
            },
            Err(e) => {
                return Err(e);
            },
        }
        i = i + 1;
    }
    proof {
        lemma_array_view(arr);
        let a = json_seq(arr@);
        assert(forall|k: int| 0 <= k < a.len() ==> conforms(#[trigger] a[k], *spec@.items->0, propname@));
        assert(min <= count <= max);
        assert(gen_traced(h0, spec@, propname@, Json::Array(a), GenTrace::Steps(hs, ts, a)));
    }
    Ok(JsonValue::Array(arr))
}

/// A random value for the field `propname` with schema `spec` (see
/// [`conforms`]).
pub fn gen_property(rng: &mut Rng, spec: &K8sResourceSpec, propname: &str) -> (r: Result<JsonValue, GenError>)
    requires
        generatable(spec@),
    ensures
        r matches Ok(v) ==> conforms(v@, spec@, propname@),
        r matches Ok(v) ==> generated(old(rng)@, spec@, propname@, v@),
        patterns_ok(spec@) ==> r is Ok,
        spec@.enum_values.len() > 0 && spec@.enum_regex.len() == 0 ==> r is Ok,
        has_enum(spec@) ==> (r matches Ok(v) ==> v@ == enum_pick(old(rng)@, spec@.enum_values, spec@.enum_regex)),
        !has_enum(spec@) && spec@.ty == "boolean"@ ==> (r matches Ok(v) && v@ == Json::Bool(
            range_draw(old(rng)@, 0, 2) == 1,
        )),
        !has_enum(spec@) && (spec@.ty == "integer"@ || spec@.ty == "number"@) ==> (r matches Ok(v)
            && v@ == Json::Int(
            range_draw(
                old(rng)@,
                int_range(propname@, spec@.format).0,
                int_range(propname@, spec@.format).1,
            ) as i64,
        )),
        !has_enum(spec@) && is_array(spec@) ==> (r matches Ok(v) ==> v@ matches Json::Array(a) && a.len()
            == array_length(old(rng)@, spec@)),
        !has_enum(spec@) && is_object(spec@) ==> (r matches Ok(v) ==> picked_members(
            v@,
            picked_fields(old(rng)@, spec@),
        )),
        !has_enum(spec@) && spec@.ty == "string"@ ==> (r matches Ok(v) ==> drawn_string(
            old(rng)@,
            string_kind(propname@, spec@.format, spec@.is_quant),
            v@,
        )),
    decreases spec, 1nat,
{
    proof {
        lemma_view_fields(*spec);
        lemma_type_names();
        if patterns_ok(spec@) {
            assert forall|i: int| 0 <= i < spec._enum_regex@.len() implies pattern_usable(
                #[trigger] spec._enum_regex@[i]@,
            ) by {
                assert(spec@.enum_regex[i] == spec._enum_regex@[i]@);
            }
        }
    }
    match rand_enum_val(rng, &spec._enum, &spec._enum_regex) {
        Err(e) => {
            return Err(e);
        },
        Ok(Some(v)) => {
            proof {
                assert(gen_traced(old(rng)@, spec@, propname@, v@, GenTrace::Done));
            }
            return Ok(v);
        },
        Ok(None) => {},
    }
    if str_eq(spec._type.as_str(), "object") {
        return gen_object(rng, spec, propname);
    }
    if str_eq(spec._type.as_str(), "string") {
        let r = gen_string(rng, propname, &spec.format, spec.is_quant);
        proof {
            if r is Ok {
                assert(gen_traced(old(rng)@, spec@, propname@, r->Ok_0@, GenTrace::Done));
            }
        }
        return r;
    }
    if str_eq(spec._type.as_str(), "boolean") {
        let v = gen_bool(rng);
        proof {
            assert(gen_traced(old(rng)@, spec@, propname@, v@, GenTrace::Done));
        }
        return Ok(v);
    }
    if str_eq(spec._type.as_str(), "array") {
        return gen_array(rng, spec, propname);
    }
    let v = gen_int(rng, propname, &spec.format);
    proof {
        assert(gen_traced(old(rng)@, spec@, propname@, v@, GenTrace::Done));
    }
    Ok(v)
}

/// The names of the fields in `props` that `required` does not hold, in
/// order.
pub open spec fn optional_names(props: Seq<(Seq<char>, Schema)>, required: Seq<Seq<char>>) -> Seq<Seq<char>>
    decreases props.len(),
{
    if props.len() == 0 {
        Seq::empty()
    } else {
        let prev = optional_names(props.drop_last(), required);
        if required.contains(props.last().0) {
            prev
        } else {
            prev.push(props.last().0)
        }
    }
}

/// The fields a generated object of schema `s` gets, from state `h`: every
/// required field, in order; then, when some fields are not required, those
/// fields shuffled, of which the first few are taken, as many as a draw in
/// `1..=n` says (in `0..=n` when some fields are required).
pub open spec fn picked_fields(h: RngState, s: Schema) -> Seq<Seq<char>> {
    let opt = optional_names(s.properties, s.required);
    if opt.len() == 0 {
        s.required
    } else {
        let low: u64 = if s.required.len() == 0 { 1 } else { 0 };
        let num = xorshift_uniform(h.after(Draw::Shuffle(opt.len())), low, (opt.len() + 1) as u64);
        s.required + reordered(opt, xorshift_shuffle(h, opt.len())).take(num as int)
    }
}

/// The value generated for an object whose picked fields are `picked`: an
/// object whose members have exactly those names (each member's name is one
/// of them, and each of them names a member), or `null` when none is
/// picked.
pub open spec fn picked_members(v: Json, picked: Seq<Seq<char>>) -> bool {
    match v {
        Json::Object(m) => {
            &&& forall|i: int| 0 <= i < m.len() ==> picked.contains(#[trigger] m[i].0)
            &&& forall|q: int| 0 <= q < picked.len() ==> member_names(m).contains(#[trigger] picked[q])
        },
        Json::Null => picked.len() == 0,
        _ => false,
    }
}

/// The generator's state after the fields of an object of schema `s` are
/// picked (see [`picked_fields`]), from state `h`.
pub open spec fn pick_state(h: RngState, s: Schema) -> RngState {
    let opt = optional_names(s.properties, s.required);
    if opt.len() == 0 {
        h
    } else {
        let low: u64 = if s.required.len() == 0 { 1 } else { 0 };
        h.after(Draw::Shuffle(opt.len())).after(Draw::Uniform(low, (opt.len() + 1) as u64))
    }
}

/// The record of the generator states a generation goes through: for an
/// object or an array, the states from which its fields or elements are
/// generated in turn, the record of each one's own generation, and the
/// values generated.
pub enum GenTrace {
    Done,
    Steps(Seq<RngState>, Seq<GenTrace>, Seq<Json>),
}

/// What the generation of a value `v` for the field `name` with schema `s`
/// gives, from state `h`, along the record `t`: with values of its own,
/// the value drawn from them; a boolean, an integer or a string from the
/// draws as [`gen_bool`], [`int_range`] and [`drawn_string`] say; an
/// array of the drawn length whose elements are generated in turn from the
/// element schema; an object whose members have the picked names (see
/// [`picked_fields`]), each holding the value generated for its field in
/// turn.
pub open spec fn gen_traced(h: RngState, s: Schema, name: Seq<char>, v: Json, t: GenTrace) -> bool
    decreases s, 1nat, 0nat,
{
    if has_enum(s) {
        v == enum_pick(h, s.enum_values, s.enum_regex)
    } else if s.ty == "object"@ {
        let picked = picked_fields(h, s);
        &&& picked_members(v, picked)
        &&& v matches Json::Object(m) ==> {
            &&& t matches GenTrace::Steps(hs, ts, vals)
            &&& hs.len() > 0
            &&& hs[0] == pick_state(h, s)
            &&& gen_members(hs, ts, s, picked, vals)
            &&& forall|i: int|
                0 <= i < m.len() ==> exists|k: int|
                    0 <= k < picked.len() && #[trigger] picked[k] == (#[trigger] m[i]).0 && vals[k] == m[i].1
        }
    } else if s.ty == "string"@ {
        drawn_string(h, string_kind(name, s.format, s.is_quant), v)
    } else if s.ty == "boolean"@ {
        v == Json::Bool(range_draw(h, 0, 2) == 1)
    } else if s.ty == "array"@ {
        &&& v matches Json::Array(a)
        &&& a.len() == array_length(h, s)
        &&& t matches GenTrace::Steps(hs, ts, vals)
        &&& hs.len() > 0
        &&& hs[0] == h.after(Draw::Uniform(array_bounds(s).0 as u64, (array_bounds(s).1 + 1) as u64))
        &&& gen_elems(hs, ts, s, name, a)
    } else {
        v == Json::Int(range_draw(h, int_range(name, s.format).0, int_range(name, s.format).1) as i64)
    }
}

/// The values `vals` are generated in turn for the fields `picked` of the
/// object schema `s`, from the states `hs`, along the records `ts`.
pub open spec fn gen_members(hs: Seq<RngState>, ts: Seq<GenTrace>, s: Schema, picked: Seq<Seq<char>>, vals: Seq<Json>) -> bool
    decreases s, 0nat, picked.len(),
{
    if picked.len() == 0 {
        hs.len() == 1 && vals.len() == 0
    } else {
        let n = picked.len() - 1;
        let k = field_index(s.properties, picked[n]);
        &&& hs.len() == picked.len() + 1
        &&& ts.len() == picked.len()
        &&& vals.len() == picked.len()
        &&& gen_members(hs.drop_last(), ts.drop_last(), s, picked.drop_last(), vals.drop_last())
        &&& 0 <= k < s.properties.len()
        &&& gen_traced(hs[n], s.properties[k].1, picked[n], vals[n], ts[n])
    }
}

/// The elements `a` are generated in turn from the element schema of the
/// array schema `s`, for the field `name`, from the states `hs`, along the
/// records `ts`.
pub open spec fn gen_elems(hs: Seq<RngState>, ts: Seq<GenTrace>, s: Schema, name: Seq<char>, a: Seq<Json>) -> bool
    decreases s, 0nat, a.len(),
{
    match s.items {
        Some(it) => if a.len() == 0 {
            hs.len() == 1
        } else {
            let n = a.len() - 1;
            &&& hs.len() == a.len() + 1
            &&& ts.len() == a.len()
            &&& gen_elems(hs.drop_last(), ts.drop_last(), s, name, a.drop_last())
            &&& gen_traced(hs[n], *it, name, a[n], ts[n])
        },
        None => false,
    }
}

/// What `gen_property` gives for the field `name` with schema `s`, from
/// state `h`, along some record of the states it goes through (see
/// [`gen_traced`]).
pub open spec fn generated(h: RngState, s: Schema, name: Seq<char>, v: Json) -> bool {
    exists|t: GenTrace| #[trigger] gen_traced(h, s, name, v, t)
}

/// The fields a random object gets: every required field, in order, then a
/// random, shuffled choice of the other fields, at least one of them when
/// nothing is required.
pub(crate) fn pick_fields(rng: &mut Rng, spec: &K8sResourceSpec) -> (to_generate: Vec<String>)
    requires
        spec@.properties.len() < usize::MAX,
        forall|r: int|
            0 <= r < spec@.required.len() ==> names(spec@.properties).contains(#[trigger] spec@.required[r]),
    ensures
        spec@.required.len() <= to_generate@.len(),
        forall|q: int| 0 <= q < spec@.required.len() ==> (#[trigger] to_generate@[q])@ == spec@.required[q],
        forall|q: int| 0 <= q < to_generate@.len() ==> names(spec@.properties).contains(#[trigger] to_generate@[q]@),
        to_generate@.len() == 0 ==> spec@.required.len() == 0 && spec@.properties.len() == 0,
        crate::conf::str_seq(to_generate@) == picked_fields(old(rng)@, spec@),
        final(rng)@ == pick_state(old(rng)@, spec@),
{
    proof {
        lemma_view_fields(*spec);
        lemma_type_names();
    }
    let ghost sv = spec@;
    let ghost pnames = names(sv.properties);
    let props = &spec.properties;
    let mut to_generate: Vec<String> = crate::constrain::copy_strings(&spec.required);
    let mut optional: Vec<String> = Vec::new();
    let np = props.len();
    let mut k: usize = 0;
    proof {
        assert(sv.properties.take(0) =~= Seq::<(Seq<char>, Schema)>::empty());
        assert(crate::conf::str_seq(optional@) =~= Seq::<Seq<char>>::empty());
    }
    while k < np
        invariant
            np == props@.len(),
            sv == spec@,
            sv.properties == prop_views(props@),
            pnames == names(sv.properties),
            k <= np,
            optional@.len() <= k,
            forall|j: int| 0 <= j < optional@.len() ==> pnames.contains(#[trigger] optional@[j]@),
            optional@.len() == 0 ==> forall|j: int|
                0 <= j < k ==> crate::conf::str_seq(spec.required@).contains(#[trigger] props@[j].0@),
            crate::conf::str_seq(optional@) == optional_names(sv.properties.take(k as int), sv.required),
            sv.required == crate::conf::str_seq(spec.required@),
        decreases np - k,
    {
        let ghost before = optional@;
        proof {
            assert(sv.properties.take(k + 1).drop_last() =~= sv.properties.take(k as int));
            assert(sv.properties.take(k + 1).last() == sv.properties[k as int]);
            assert(sv.properties[k as int].0 == props@[k as int].0@);
        }
        if !holds(&spec.required, props[k].0.as_str()) {
            optional.push(props[k].0.clone());
            proof {
                assert(pnames[k as int] == props@[k as int].0@);
                assert(crate::conf::str_seq(optional@) =~= crate::conf::str_seq(before).push(props@[k as int].0@));
            }
        }
        k = k + 1;
    }
    proof {
        assert(sv.properties.take(np as int) =~= sv.properties);
    }
    let ghost opt = crate::conf::str_seq(optional@);
    let ghost h0 = rng@;
    let nreq = to_generate.len();
    proof {
        assert(forall|j: int| 0 <= j < nreq ==> (#[trigger] to_generate@[j])@ == sv.required[j]);
    }
    if optional.len() > 0 {
        let ghost before = optional@;
        shuffle(rng, &mut optional);
        let ghost ord = xorshift_shuffle(h0, opt.len());
        proof {
            assert forall|i: int| 0 <= i < optional@.len() implies #[trigger] crate::conf::str_seq(optional@)[i]
                == reordered(opt, ord)[i] by {
                assert(0 <= ord[i] < opt.len());
                assert(optional@[i] == before[ord[i]]);
            }
            assert(crate::conf::str_seq(optional@) =~= reordered(opt, ord));
        }
        proof {
            assert forall|j: int| 0 <= j < optional@.len() implies pnames.contains(#[trigger] optional@[j]@) by {
                broadcast use vstd::seq_lib::group_to_multiset_ensures;
                assert(optional@.contains(optional@[j]));
                assert(optional@.to_multiset().count(optional@[j]) > 0);
                assert(before.to_multiset().count(optional@[j]) > 0);
                assert(before.contains(optional@[j]));
                let q = choose|q: int| 0 <= q < before.len() && before[q] == optional@[j];
            }
        }
        let low: usize = if nreq == 0 { 1 } else { 0 };
        let num = gen_range_usize(rng, low, optional.len() + 1);
        let mut j: usize = 0;
        proof {
            assert(sv.required + crate::conf::str_seq(optional@).take(0) =~= sv.required);
        }
        while j < num
            invariant
                j <= num,
                num <= optional@.len(),
                to_generate@.len() == nreq + j,
                forall|q: int| 0 <= q < nreq ==> (#[trigger] to_generate@[q])@ == sv.required[q],
                forall|q: int| 0 <= q < optional@.len() ==> pnames.contains(#[trigger] optional@[q]@),
                forall|q: int| nreq <= q < to_generate@.len() ==> pnames.contains(#[trigger] to_generate@[q]@),
                crate::conf::str_seq(to_generate@) == sv.required + crate::conf::str_seq(optional@).take(j as int),
            decreases num - j,
        {
            let ghost tb = to_generate@;
            to_generate.push(optional[j].clone());
            proof {
                assert(crate::conf::str_seq(to_generate@) =~= crate::conf::str_seq(tb).push(optional@[j as int]@));
                assert(crate::conf::str_seq(optional@).take(j + 1) =~= crate::conf::str_seq(optional@).take(
                    j as int,
                ).push(optional@[j as int]@));
            }
            j = j + 1;
        }
        proof {
            assert(nreq == 0 ==> to_generate@.len() >= 1);
        }
    }
    proof {
        assert(optional@.len() > 0 && nreq == 0 ==> to_generate@.len() >= 1);
    }
    let ng = to_generate.len();
    proof {
        assert forall|q: int| 0 <= q < ng implies pnames.contains(#[trigger] to_generate@[q]@) by {
            if q < nreq {
                assert(to_generate@[q]@ == sv.required[q]);
            }
        }
    }
    proof {
        if ng == 0 {
            assert(nreq == 0);
            assert(optional@.len() == 0);
            assert(crate::conf::str_seq(spec.required@).len() == 0);
            if np > 0 {
                assert(crate::conf::str_seq(spec.required@).contains(props@[0].0@));
            }
        }
    }
    to_generate
}

/// A random object: every required field, and a random, shuffled choice of
/// the other fields (at least one when nothing is required), each generated
/// from its own schema.
fn gen_object(rng: &mut Rng, spec: &K8sResourceSpec, propname: &str) -> (r: Result<JsonValue, GenError>)
    requires
        generatable(spec@),
        is_object(spec@),
        !has_enum(spec@),
    ensures
        r matches Ok(v) ==> conforms(v@, spec@, propname@),
        r matches Ok(v) ==> picked_members(v@, picked_fields(old(rng)@, spec@)),
        r matches Ok(v) ==> generated(old(rng)@, spec@, propname@, v@),
        patterns_ok(spec@) ==> r is Ok,
    decreases spec, 0nat,
{
    proof {
        lemma_view_fields(*spec);
        lemma_type_names();
    }
    let ghost sv = spec@;
    let ghost pnames = names(sv.properties);
    let props = &spec.properties;
    let ghost h0 = rng@;
    let to_generate = pick_fields(rng, spec);
    let ghost picked = crate::conf::str_seq(to_generate@);
    let nreq = spec.required.len();
    let ng = to_generate.len();
    let mut members: Vec<(String, JsonValue)> = Vec::new();
    let mut g: usize = 0;
    let ghost hp = rng@;
    let ghost mut hs: Seq<RngState> = seq![rng@];
    let ghost mut ts: Seq<GenTrace> = Seq::empty();
    let ghost mut vals: Seq<Json> = Seq::empty();
    proof {
        assert(picked.take(0) =~= Seq::<Seq<char>>::empty());
    }
    while g < ng
        invariant
            hp == pick_state(h0, sv),
            hs.len() == g + 1,
            hs[0] == hp,
            hs[g as int] == rng@,
            gen_members(hs, ts, sv, picked.take(g as int), vals),
            vals.len() == g,
            ts.len() == g,
            forall|i: int|
                0 <= i < members@.len() ==> exists|k: int|
                    0 <= k < g && #[trigger] picked[k] == (#[trigger] members_view(members@)[i]).0 && vals[k]
                        == members_view(members@)[i].1,
            ng == to_generate@.len(),
            sv == spec@,
            sv.properties == prop_views(props@),
            *props == spec.properties,
            pnames == names(sv.properties),
            generatable(sv),
            is_object(sv),
            !has_enum(sv),
            g <= ng,
            forall|q: int| 0 <= q < ng ==> pnames.contains(#[trigger] to_generate@[q]@),
            forall|q: int| 0 <= q < nreq && nreq <= ng ==> (#[trigger] to_generate@[q])@ == sv.required[q],
            nreq <= ng,
            member_names(members_view(members@)).no_duplicates(),
            forall|q: int| 0 <= q < g ==> member_names(members_view(members@)).contains(#[trigger] to_generate@[q]@),
            picked == crate::conf::str_seq(to_generate@),
            forall|i: int| 0 <= i < members@.len() ==> picked.contains(#[trigger] member_names(members_view(members@))[i]),
            forall|i: int|
                0 <= i < members@.len() ==> {
                    let k = field_index(sv.properties, (#[trigger] members_view(members@)[i]).0);
                    0 <= k < sv.properties.len() && conforms(
                        members_view(members@)[i].1,
                        sv.properties[k].1,
                        members_view(members@)[i].0,
                    )
                },
        decreases ng - g,
    {
        let name = to_generate[g].clone();
        let idx = find_prop(props, name.as_str());
        let idx = match idx {
            Some(i) => i,
            None => {
                proof {
                    assert(pnames.contains(to_generate@[g as int]@));
                    assert(names(prop_views(props@)).contains(name@));
                }
                return Ok(JsonValue::Null);
            },
        };
        proof {
            broadcast use vstd::std_specs::vec::group_vec_axioms;
            assert(sv.properties[idx as int] == (props@[idx as int].0@, props@[idx as int].1@));
            assert(generatable(sv.properties[idx as int].1));
            assert(generatable(props@[idx as int].1@));
            assert(decreases_to!(*spec => spec.properties));
            assert(decreases_to!(spec.properties => spec.properties[idx as int]));
            assert(decreases_to!(spec.properties[idx as int] => spec.properties[idx as int].1));
            assert(decreases_to!(*spec => spec.properties[idx as int].1));
            assert(spec.properties[idx as int].1 == props@[idx as int].1);
            assert(patterns_ok(sv) ==> patterns_ok(sv.properties[idx as int].1));
        }
        let ghost hg = rng@;
        let v = match gen_property(rng, &props[idx].1, name.as_str()) {
            Ok(v) => v,
            Err(e) => {
                return Err(e);
            },
        };
        assert(generated(hg, props@[idx as int].1@, name@, v@));
        let ghost before = members_view(members@);
        let ghost before_members = members@;
        let ghost pair = (name@, v@);
        set_member(&mut members, name, v);
        proof {
            let after = members_view(members@);
            assert forall|q: int| 0 <= q < g + 1 implies member_names(after).contains(#[trigger] to_generate@[q]@) by {
                if q == g {
                    let i = choose|i: int| 0 <= i < after.len() && after[i] == pair;
                    assert(member_names(after)[i] == pair.0);
                } else {
                    let i = choose|i: int| 0 <= i < before.len() && member_names(before)[i] == to_generate@[q]@;
                    if before[i].0 == pair.0 {
                        let i2 = choose|i2: int| 0 <= i2 < after.len() && after[i2] == pair;
                        assert(member_names(after)[i2] == pair.0);
                    } else {
                        assert(after.contains(before[i]));
                        let i2 = choose|i2: int| 0 <= i2 < after.len() && after[i2] == before[i];
                        assert(member_names(after)[i2] == to_generate@[q]@);
                    }
                }
            }
            lemma_field_index(sv.properties, idx as int);
            assert forall|i: int| 0 <= i < members@.len() implies {
                let k = field_index(sv.properties, (#[trigger] members_view(members@)[i]).0);
                0 <= k < sv.properties.len() && conforms(
                    members_view(members@)[i].1,
                    sv.properties[k].1,
                    members_view(members@)[i].0,
                )
            } by {
                if after[i] == pair {
                    assert(sv.properties[idx as int].0 == pair.0);
                } else {
                    assert(before.contains(after[i]));
                    let i0 = choose|i0: int| 0 <= i0 < before.len() && before[i0] == after[i];
                }
            }
            assert forall|i: int| 0 <= i < members@.len() implies picked.contains(#[trigger] member_names(after)[i]) by {
                if after[i] == pair {
                    assert(picked[g as int] == name@);
                } else {
                    let i0 = choose|i0: int| 0 <= i0 < before.len() && before[i0] == after[i];
                    assert(picked.contains(member_names(before)[i0]));
                }
            }
            let t = choose|t: GenTrace| #[trigger] gen_traced(hg, props@[idx as int].1@, name@, v@, t);
            let hs2 = hs.push(rng@);
            let ts2 = ts.push(t);
            let vals2 = vals.push(v@);
            assert(picked[g as int] == name@);
            assert(picked.take(g + 1).drop_last() =~= picked.take(g as int));
            assert(picked.take(g + 1).last() == name@);
            assert(hs2.drop_last() =~= hs);
            assert(ts2.drop_last() =~= ts);
            assert(vals2.drop_last() =~= vals);
            assert(field_index(sv.properties, name@) == idx);
            let pk = picked.take(g + 1);
            assert(pk.len() == g + 1);
            assert(hs2.len() == pk.len() + 1);
            assert(gen_members(hs2.drop_last(), ts2.drop_last(), sv, pk.drop_last(), vals2.drop_last()));
            assert(0 <= field_index(sv.properties, pk[g as int]) < sv.properties.len());
            assert(sv.properties[idx as int].1 == props@[idx as int].1@);
            assert(hs2[g as int] == hg);
            assert(pk[g as int] == name@);
            assert(vals2[g as int] == v@);
            assert(ts2[g as int] == t);
            assert(sv.properties[field_index(sv.properties, pk[g as int])].1 == props@[idx as int].1@);
            assert(gen_traced(hg, props@[idx as int].1@, name@, v@, t));
            assert(gen_traced(hs2[g as int], sv.properties[field_index(sv.properties, pk[g as int])].1, pk[g as int], vals2[g as int], ts2[g as int]));
            assert(gen_members(hs2, ts2, sv, picked.take(g + 1), vals2));
            assert forall|i: int| 0 <= i < members@.len() implies exists|k: int|
                0 <= k < g + 1 && #[trigger] picked[k] == (#[trigger] members_view(members@)[i]).0 && vals2[k]
                    == members_view(members@)[i].1 by {
                if after[i] == pair {
                    assert(picked[g as int] == after[i].0 && vals2[g as int] == after[i].1);
                } else {
                    let i0 = choose|i0: int| 0 <= i0 < before.len() && before[i0] == after[i];
                    assert(before[i0] == members_view(before_members)[i0]);
                    let k = choose|k: int|
                        0 <= k < g && #[trigger] picked[k] == (#[trigger] members_view(before_members)[i0]).0 && vals[k]
                            == members_view(before_members)[i0].1;
                    assert(vals2[k] == vals[k]);
                    assert(picked[k] == after[i].0 && vals2[k] == after[i].1);
                }
            }
            hs = hs2;
            ts = ts2;
            vals = vals2;
        }
        g = g + 1;
    }
    if ng == 0 {
        proof {
            assert(gen_traced(h0, sv, propname@, Json::Null, GenTrace::Done));
        }
        return Ok(JsonValue::Null);
    }
    proof {
        lemma_object_view(members);
        let m = members_view(members@);
        assert forall|r: int| 0 <= r < sv.required.len() implies member_names(m).contains(
            #[trigger] sv.required[r],
        ) by {
            assert(to_generate@[r]@ == sv.required[r]);
        }
        assert(member_names(m).no_duplicates());
        assert forall|i: int| 0 <= i < m.len() implies {
            let k = field_index(sv.properties, (#[trigger] m[i]).0);
            0 <= k < sv.properties.len() && conforms(m[i].1, sv.properties[k].1, m[i].0)
        } by {
            assert(members_view(members@)[i] == m[i]);
        }
        assert(member_names(m).contains(to_generate@[0]@));
        lemma_conforms_object(m, sv, propname@);
        assert forall|q: int| 0 <= q < picked.len() implies member_names(m).contains(#[trigger] picked[q]) by {
            assert(picked[q] == to_generate@[q]@);
        }
        assert forall|i: int| 0 <= i < m.len() implies picked.contains(#[trigger] m[i].0) by {
            assert(member_names(m)[i] == m[i].0);
        }
        assert(picked.take(ng as int) =~= picked);
        assert forall|i: int| 0 <= i < m.len() implies exists|k: int|
            0 <= k < picked.len() && #[trigger] picked[k] == (#[trigger] m[i]).0 && vals[k] == m[i].1 by {
            assert(members_view(members@)[i] == m[i]);
            let k = choose|k: int|
                0 <= k < g && #[trigger] picked[k] == (#[trigger] members_view(members@)[i]).0 && vals[k]
                    == members_view(members@)[i].1;
        }
        assert(gen_traced(h0, sv, propname@, Json::Object(m), GenTrace::Steps(hs, ts, vals)));
    }
    Ok(JsonValue::Object(members))
}

/// The `apiVersion` of a resource: `group/version`, or the version alone
/// for the core group.
pub open spec fn api_version_of(s: Schema) -> Seq<char> {
    match s.group {
        Some(g) => g.push('/') + s.version->0,
        None => s.version->0,
    }
}

/// The name of the `n`-th generated resource.
pub open spec fn resource_name(n: u64) -> Seq<char> {
    "kubefuzz-"@ + decimal(n as nat)
}

/// Generated names never repeat: resources generated with different
/// counter values get different names, so no two of the first 2^64 calls
/// of [`gen_resource`] name their resources alike.
pub proof fn law_names_distinct(a: u64, b: u64)
    requires
        a != b,
    ensures
        resource_name(a) != resource_name(b),
{
    if resource_name(a) == resource_name(b) {
        let p = "kubefuzz-"@;
        assert(resource_name(a).skip(p.len() as int) =~= decimal(a as nat));
        assert(resource_name(b).skip(p.len() as int) =~= decimal(b as nat));
        crate::text::lemma_decimal_injective(a as nat, b as nat);
    }
}

/// What `gen_resource` needs of the root schema: an object without values
/// of its own, with a version and a kind, whose `metadata` field (if it has
/// one) is an object without values of its own.
pub open spec fn resource_root_ok(s: Schema) -> bool {
    &&& is_object(s)
    &&& !has_enum(s)
    &&& s.version is Some
    &&& s.kind is Some
    &&& forall|k: int|
        0 <= k < s.properties.len() && (#[trigger] s.properties[k]).0 == "metadata"@ ==> is_object(
            s.properties[k].1,
        ) && !has_enum(s.properties[k].1)
}

/// The members of an object, none for `null`.
fn into_members(v: JsonValue) -> (m: Vec<(String, JsonValue)>)
    requires
        v@ is Object || v@ is Null,
    ensures
        v@ is Null ==> m@.len() == 0,
        v@ matches Json::Object(x) ==> members_view(m@) == x,
{
    match v {
        JsonValue::Object(m) => {
            proof {
                lemma_object_view(m);
            }
            m
        },
        _ => Vec::new(),
    }
}

/// A random resource: a random value of the root schema, with its
/// `apiVersion`, `kind` and `metadata.name` set; `count` numbers the
/// generated resources and names this one.
pub fn gen_resource(rng: &mut Rng, count: &mut u64, spec: &K8sResourceSpec) -> (r: Result<JsonValue, GenError>)
    requires
        generatable(spec@),
        resource_root_ok(spec@),
    ensures
        patterns_ok(spec@) ==> r is Ok,
        r is Ok ==> *final(count) == (if *old(count) == u64::MAX { 0 } else { *old(count) + 1 }),
        r is Err ==> *final(count) == *old(count),
        r matches Ok(v) ==> {
            &&& v@ is Object
            &&& field(v@, "apiVersion"@) == Some(Json::Str(api_version_of(spec@)))
            &&& field(v@, "kind"@) == Some(Json::Str(spec@.kind->0))
            &&& field(v@, "metadata"@) matches Some(md) && field(md, "name"@) == Some(
                Json::Str(resource_name(*old(count))),
            )
            &&& forall|q: int|
                0 <= q < spec@.required.len() ==> member_names(v@->Object_0).contains(#[trigger] spec@.required[q])
            &&& forall|q: int|
                0 <= q < picked_fields(old(rng)@, spec@).len() ==> member_names(v@->Object_0).contains(
                    #[trigger] picked_fields(old(rng)@, spec@)[q],
                )
            &&& forall|i: int|
                0 <= i < v@->Object_0.len() && (#[trigger] v@->Object_0[i]).0 != "apiVersion"@
                    && v@->Object_0[i].0 != "kind"@ && v@->Object_0[i].0 != "metadata"@ ==> {
                    let k = field_index(spec@.properties, v@->Object_0[i].0);
                    0 <= k < spec@.properties.len() && conforms(
                        v@->Object_0[i].1,
                        spec@.properties[k].1,
                        v@->Object_0[i].0,
                    )
                }
        },
{
    proof {
        lemma_view_fields(*spec);
        lemma_type_names();
        reveal_strlit("apiVersion");
        reveal_strlit("kind");
        reveal_strlit("metadata");
        reveal_strlit("name");
        reveal_strlit("kubefuzz-");
    }
    let ghost h0 = rng@;
    let resc = match gen_property(rng, spec, "$") {
        Ok(v) => v,
        Err(e) => {
            return Err(e);
        },
    };
    let ghost sv = spec@;
    let ghost gen_view = resc@;
    let mut members = into_members(resc);
    let ghost m0 = members_view(members@);
    proof {
        if gen_view is Null {
            assert(m0 =~= Seq::<(Seq<char>, Json)>::empty());
        }
        assert(member_names(m0).no_duplicates());
        assert forall|i: int| 0 <= i < m0.len() implies {
            let k = field_index(sv.properties, (#[trigger] m0[i]).0);
            0 <= k < sv.properties.len() && conforms(m0[i].1, sv.properties[k].1, m0[i].0)
        } by {
            if let Json::Object(x) = gen_view {
                assert(x == m0);
            }
        }
    }
    // apiVersion
    let mut api = String::new();
    match &spec.group {
        Some(g) => {
            push_str_(&mut api, g.as_str());
            push_char(&mut api, '/');
        },
        None => {},
    }
    match &spec.version {
        Some(v) => push_str_(&mut api, v.as_str()),
        None => {},
    }
    proof {
        assert(api@ == api_version_of(spec@));
    }
    let ghost pair_api = ("apiVersion"@, Json::Str(api@));
    set_member(&mut members, owned("apiVersion"), JsonValue::Str(api));
    let ghost m1 = members_view(members@);
    let kind = match &spec.kind {
        Some(k) => k.clone(),
        None => String::new(),
    };
    let ghost pair_kind = ("kind"@, Json::Str(kind@));
    set_member(&mut members, owned("kind"), JsonValue::Str(kind));
    let ghost m2 = members_view(members@);
    // metadata.name
    let mut name = owned("kubefuzz-");
    push_decimal(&mut name, *count);
    proof {
        assert(name@ == resource_name(*old(count)));
    }
    *count = if *count == u64::MAX { 0 } else { *count + 1 };
    let md_value = match find_member(&members, "metadata") {
        Some(i) => {
            proof {
                let e = m2[i as int];
                assert(e.0 == "metadata"@);
                assert("apiVersion"@[0] != "metadata"@[0]);
                assert("kind"@[0] != "metadata"@[0]);
                assert(e != pair_kind);
                assert(m1.contains(e));
                let j = choose|j: int| 0 <= j < m1.len() && m1[j] == e;
                assert(m1[j] != pair_api);
                assert(m0.contains(e));
                let j0 = choose|j0: int| 0 <= j0 < m0.len() && m0[j0] == e;
                let k = field_index(sv.properties, m0[j0].0);
                assert(0 <= k < sv.properties.len() && conforms(m0[j0].1, sv.properties[k].1, m0[j0].0));
                lemma_field_index_name(sv.properties, e.0);
                assert(sv.properties[k].0 == "metadata"@);
                assert(is_object(sv.properties[k].1) && !has_enum(sv.properties[k].1));
            }
            members[i].1.deep_copy()
        },
        None => JsonValue::Null,
    };
    let ghost md_view = md_value@;
    let mut md = into_members(md_value);
    proof {
        if let Json::Object(x) = md_view {
            assert(member_names(x).no_duplicates());
        } else {
            assert(members_view(md@) =~= Seq::<(Seq<char>, Json)>::empty());
        }
        assert(member_names(members_view(md@)).no_duplicates());
    }
    let ghost pair_name = ("name"@, Json::Str(name@));
    set_member(&mut md, owned("name"), JsonValue::Str(name));
    let ghost mdv = members_view(md@);
    proof {
        lemma_object_view(md);
    }
    let ghost pair_md = ("metadata"@, Json::Object(mdv));
    set_member(&mut members, owned("metadata"), JsonValue::Object(md));
    proof {
        let m3 = members_view(members@);
        lemma_object_view(members);
        // the three set members are found by their names
        assert("apiVersion"@[0] != "kind"@[0]);
        assert("apiVersion"@[0] != "metadata"@[0]);
        assert("kind"@[0] != "metadata"@[0]);
        let i_api = choose|i: int| 0 <= i < m1.len() && m1[i] == pair_api;
        assert(m2.contains(m1[i_api]));
        let j_api = choose|j: int| 0 <= j < m2.len() && m2[j] == pair_api;
        assert(m3.contains(m2[j_api]));
        let k_api = choose|k: int| 0 <= k < m3.len() && m3[k] == pair_api;
        lemma_member_found(m3, k_api);
        let j_kind = choose|j: int| 0 <= j < m2.len() && m2[j] == pair_kind;
        assert(m3.contains(m2[j_kind]));
        let k_kind = choose|k: int| 0 <= k < m3.len() && m3[k] == pair_kind;
        lemma_member_found(m3, k_kind);
        let k_md = choose|k: int| 0 <= k < m3.len() && m3[k] == pair_md;
        lemma_member_found(m3, k_md);
        let k_name = choose|k: int| 0 <= k < mdv.len() && mdv[k] == pair_name;
        lemma_member_found(mdv, k_name);
        // the other members were generated from their fields
        assert forall|i: int|
            0 <= i < m3.len() && (#[trigger] m3[i]).0 != "apiVersion"@ && m3[i].0 != "kind"@ && m3[i].0
                != "metadata"@ implies {
            let k = field_index(sv.properties, m3[i].0);
            0 <= k < sv.properties.len() && conforms(m3[i].1, sv.properties[k].1, m3[i].0)
        } by {
            assert(m3[i] != pair_md);
            assert(m2.contains(m3[i]));
            let j = choose|j: int| 0 <= j < m2.len() && m2[j] == m3[i];
            assert(m2[j] != pair_kind);
            assert(m1.contains(m2[j]));
            let j1 = choose|j1: int| 0 <= j1 < m1.len() && m1[j1] == m2[j];
            assert(m1[j1] != pair_api);
            assert(m0.contains(m1[j1]));
            let j0 = choose|j0: int| 0 <= j0 < m0.len() && m0[j0] == m1[j1];
            assert(m0[j0] == m3[i]);
        }
        // the root's required fields were generated, or are among the three set
        assert forall|q: int| 0 <= q < sv.required.len() implies member_names(m3).contains(
            #[trigger] sv.required[q],
        ) by {
            let x = sv.required[q];
            if x == "apiVersion"@ {
                assert(member_names(m3)[k_api] == x);
            } else if x == "kind"@ {
                assert(member_names(m3)[k_kind] == x);
            } else if x == "metadata"@ {
                assert(member_names(m3)[k_md] == x);
            } else {
                if let Json::Object(g) = gen_view {
                    assert(g == m0);
                    assert(member_names(m0).contains(x));
                } else {
                    assert(sv.required.len() == 0);
                }
                let j0 = choose|j0: int| 0 <= j0 < m0.len() && member_names(m0)[j0] == x;
                assert(m1.contains(m0[j0]));
                let j1 = choose|j1: int| 0 <= j1 < m1.len() && m1[j1] == m0[j0];
                assert(m2.contains(m1[j1]));
                let j2 = choose|j2: int| 0 <= j2 < m2.len() && m2[j2] == m1[j1];
                assert(m3.contains(m2[j2]));
                let j3 = choose|j3: int| 0 <= j3 < m3.len() && m3[j3] == m2[j2];
                assert(member_names(m3)[j3] == x);
            }
        }
        // so were the fields picked for the root
        let picked = picked_fields(h0, sv);
        assert forall|q: int| 0 <= q < picked.len() implies member_names(m3).contains(#[trigger] picked[q]) by {
            let x = picked[q];
            if x == "apiVersion"@ {
                assert(member_names(m3)[k_api] == x);
            } else if x == "kind"@ {
                assert(member_names(m3)[k_kind] == x);
            } else if x == "metadata"@ {
                assert(member_names(m3)[k_md] == x);
            } else {
                assert(picked_members(gen_view, picked));
                if let Json::Object(g) = gen_view {
                    assert(g == m0);
                    assert(member_names(m0).contains(x));
                }
                let j0 = choose|j0: int| 0 <= j0 < m0.len() && member_names(m0)[j0] == x;
                assert(m1.contains(m0[j0]));
                let j1 = choose|j1: int| 0 <= j1 < m1.len() && m1[j1] == m0[j0];
                assert(m2.contains(m1[j1]));
                let j2 = choose|j2: int| 0 <= j2 < m2.len() && m2[j2] == m1[j1];
                assert(m3.contains(m2[j2]));
                let j3 = choose|j3: int| 0 <= j3 < m3.len() && m3[j3] == m2[j2];
                assert(member_names(m3)[j3] == x);
            }
        }
    }
    Ok(JsonValue::Object(members))
}

/// Whether the generator can walk the schema (see [`generatable`]).
pub fn check_generatable(spec: &K8sResourceSpec) -> (b: bool)
    ensures
        b == generatable(spec@),
    decreases spec,
{
    proof {
        lemma_view_fields(*spec);
        lemma_type_names();
    }
    let ghost sv = spec@;
    if spec._enum.len() > 0 || spec._enum_regex.len() > 0 {
        return true;
    }
    let t = spec._type.as_str();
    let object = str_eq(t, "object");
    let array = str_eq(t, "array");
    if !(object || array || str_eq(t, "string") || str_eq(t, "boolean") || str_eq(t, "integer") || str_eq(
        t,
        "number",
    )) {
        return false;
    }
    if object {
        let props = &spec.properties;
        if !crate::schema::distinct_names(props) {
            return false;
        }
        if props.len() == usize::MAX {
            return false;
        }
        let nr = spec.required.len();
        let mut r: usize = 0;
        while r < nr
            invariant
                nr == sv.required.len(),
                sv == spec@,
                sv.properties == prop_views(props@),
                *props == spec.properties,
                !has_enum(sv),
                is_object(sv),
                r <= nr,
                forall|q: int| 0 <= q < r ==> names(sv.properties).contains(#[trigger] sv.required[q]),
            decreases nr - r,
        {
            proof {
                assert(sv.required[r as int] == spec.required@[r as int]@);
            }
            match find_prop(props, spec.required[r].as_str()) {
                Some(k) => {
                    proof {
                        assert(names(sv.properties)[k as int] == sv.required[r as int]);
                    }
                },
                None => {
                    proof {
                        assert(!names(sv.properties).contains(sv.required[r as int]));
                    }
                    return false;
                },
            }
            r = r + 1;
        }
        let np = props.len();
        let mut k: usize = 0;
        while k < np
            invariant
                np == props@.len(),
                sv == spec@,
                sv.properties == prop_views(props@),
                *props == spec.properties,
                !has_enum(sv),
                is_object(sv),
                k <= np,
                forall|q: int| 0 <= q < k ==> generatable(#[trigger] sv.properties[q].1),
            decreases np - k,
        {
            proof {
                broadcast use vstd::std_specs::vec::group_vec_axioms;
                assert(sv.properties[k as int] == (props@[k as int].0@, props@[k as int].1@));
                assert(decreases_to!(*spec => spec.properties));
                assert(decreases_to!(spec.properties => spec.properties[k as int]));
                assert(decreases_to!(spec.properties[k as int] => spec.properties[k as int].1));
            }
            if !check_generatable(&props[k].1) {
                proof {
                    assert(!generatable(sv.properties[k as int].1));
                }
                return false;
            }
            k = k + 1;
        }
        return true;
    }
    if array {
        let items: &K8sResourceSpec = match &spec.items {
            Some(b) => b,
            None => {
                return false;
            },
        };
        proof {
            assert(sv.items == Some(Box::new(items@)));
            assert(decreases_to!(*spec => spec.items));
            assert(decreases_to!(*spec => *items));
            assert(array_bounds(sv) == match spec.minmax {
                Some(mm) => mm,
                None => (1usize, 20usize),
            });
        }
        let (min, max) = match spec.minmax {
            Some(mm) => mm,
            None => (1, 20),
        };
        if !(min <= max && max < usize::MAX) {
            return false;
        }
        return check_generatable(items);
    }
    true
}

/// Whether the schema can be the root of a generated resource (see
/// [`resource_root_ok`]).
pub fn check_resource_root(spec: &K8sResourceSpec) -> (b: bool)
    ensures
        b == resource_root_ok(spec@),
{
    proof {
        lemma_view_fields(*spec);
        reveal_strlit("metadata");
    }
    let ghost sv = spec@;
    if !str_eq(spec._type.as_str(), "object") || spec._enum.len() > 0 || spec._enum_regex.len() > 0
        || spec.version.is_none() || spec.kind.is_none() {
        return false;
    }
    let props = &spec.properties;
    let np = props.len();
    let mut k: usize = 0;
    while k < np
        invariant
            np == props@.len(),
            sv == spec@,
            sv.properties == prop_views(props@),
            k <= np,
            forall|q: int|
                0 <= q < k && (#[trigger] sv.properties[q]).0 == "metadata"@ ==> is_object(sv.properties[q].1)
                    && !has_enum(sv.properties[q].1),
        decreases np - k,
    {
        proof {
            assert(sv.properties[k as int] == (props@[k as int].0@, props@[k as int].1@));
            lemma_view_fields(props@[k as int].1);
        }
        if str_eq(props[k].0.as_str(), "metadata") {
            let m = &props[k].1;
            if !str_eq(m._type.as_str(), "object") || m._enum.len() > 0 || m._enum_regex.len() > 0 {
                return false;
            }
        }
        k = k + 1;
    }
    true
}

} // verus!
