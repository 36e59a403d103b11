//! A JSON document as the generator and the mutator see it.

use vstd::prelude::*;
use crate::text::str_eq;

verus! {

/// A JSON value. Numbers that fit an `i64` are held as such; any other
/// number is held by its JSON text. An object is a list of members; the
/// library keeps member names distinct.
#[derive(Debug, PartialEq)]
pub enum JsonValue {
    Null,
    Bool(bool),
    Int(i64),
    Number(String),
    Str(String),
    Array(Vec<JsonValue>),
    Object(Vec<(String, JsonValue)>),
}

/// The mathematical value of a JSON document.
pub enum Json {
    Null,
    Bool(bool),
    Int(i64),
    Number(Seq<char>),
    Str(Seq<char>),
    Array(Seq<Json>),
    Object(Seq<(Seq<char>, Json)>),
}

/// The mathematical value of `v`.
pub open spec fn json_view(v: JsonValue) -> Json
    decreases v,
{
    match v {
        JsonValue::Null => Json::Null,
        JsonValue::Bool(b) => Json::Bool(b),
        JsonValue::Int(i) => Json::Int(i),
        JsonValue::Number(t) => Json::Number(t@),
        JsonValue::Str(s) => Json::Str(s@),
        JsonValue::Array(a) => Json::Array(
            Seq::new(
                a@.len(),
                |i: int|
                    if 0 <= i < a@.len() {
                        json_view(a@[i])
                    } else {
                        Json::Null
                    },
            ),
        ),
        JsonValue::Object(o) => Json::Object(
            Seq::new(
                o@.len(),
                |i: int|
                    if 0 <= i < o@.len() {
                        (o@[i].0@, json_view(o@[i].1))
                    } else {
                        (Seq::<char>::empty(), Json::Null)
                    },
            ),
        ),
    }
}

impl View for JsonValue {
    type V = Json;

    open spec fn view(&self) -> Json {
        json_view(*self)
    }
}

/// The views of a list of values.
pub open spec fn json_seq(v: Seq<JsonValue>) -> Seq<Json> {
    Seq::new(v.len(), |i: int| v[i]@)
}

/// The names of an object's members, in order.
pub open spec fn member_names(members: Seq<(Seq<char>, Json)>) -> Seq<Seq<char>> {
    Seq::new(members.len(), |i: int| members[i].0)
}

/// The value of the member called `name`, if there is one (the first one).
pub open spec fn member(members: Seq<(Seq<char>, Json)>, name: Seq<char>) -> Option<Json>
    decreases members.len(),
{
    if members.len() == 0 {
        None
    } else if members[0].0 == name {
        Some(members[0].1)
    } else {
        member(members.drop_first(), name)
    }
}

/// The value at `name` of an object; nothing for any other value.
pub open spec fn field(v: Json, name: Seq<char>) -> Option<Json> {
    match v {
        Json::Object(m) => member(m, name),
        _ => None,
    }
}

/// Every object, however deep, has distinct member names.
pub open spec fn json_wf(v: Json) -> bool
    decreases v,
{
    match v {
        Json::Array(a) => forall|i: int| 0 <= i < a.len() ==> #[trigger] json_wf(a[i]),
        Json::Object(m) => {
            &&& member_names(m).no_duplicates()
            &&& forall|i: int| 0 <= i < m.len() ==> #[trigger] json_wf(m[i].1)
        },
        _ => true,
    }
}

impl JsonValue {
    /// A copy of the value.
    pub fn deep_copy(&self) -> (r: JsonValue)
        ensures
            r@ == self@,
        decreases self,
    {
        match self {
            JsonValue::Null => JsonValue::Null,
            JsonValue::Bool(b) => JsonValue::Bool(*b),
            JsonValue::Int(i) => JsonValue::Int(*i),
            JsonValue::Number(t) => JsonValue::Number(t.clone()),
            JsonValue::Str(s) => JsonValue::Str(s.clone()),
            JsonValue::Array(a) => {
                let mut out: Vec<JsonValue> = Vec::new();
                let n = a.len();
                let mut i: usize = 0;
                while i < n
                    invariant
                        n == a@.len(),
                        i <= n,
                        out@.len() == i,
                        *self == JsonValue::Array(*a),
                        forall|k: int| 0 <= k < i ==> #[trigger] json_view(out@[k]) == json_view(a@[k]),
                    decreases n - i,
                {
                    proof {
                        broadcast use vstd::std_specs::vec::group_vec_axioms;
                        assert(decreases_to!(*a => a[i as int]));
                        assert(decreases_to!(*self => (*self)->Array_0));
                        assert(decreases_to!(*self => a[i as int]));
                    }
                    let c = a[i].deep_copy();
                    out.push(c);
                    i = i + 1;
                }
                let ghost xs = Seq::new(
                    out@.len(),
                    |k: int|
                        if 0 <= k < out@.len() {
                            json_view(out@[k])
                        } else {
                            Json::Null
                        },
                );
                let ghost ys = Seq::new(
                    a@.len(),
                    |k: int|
                        if 0 <= k < a@.len() {
                            json_view(a@[k])
                        } else {
                            Json::Null
                        },
                );
                proof {
                    assert(xs =~= ys);
                }
                let r = JsonValue::Array(out);
                proof {
                    match (r@, self@) {
                        (Json::Array(x), Json::Array(y)) => {
                            assert(x =~= xs);
                            assert(y =~= ys);
                        },
                        _ => {},
                    }
                }
                r
            },
            JsonValue::Object(o) => {
                let mut out: Vec<(String, JsonValue)> = Vec::new();
                let n = o.len();
                let mut i: usize = 0;
                while i < n
                    invariant
                        n == o@.len(),
                        i <= n,
                        out@.len() == i,
                        *self == JsonValue::Object(*o),
                        forall|k: int|
                            0 <= k < i ==> (#[trigger] out@[k]).0@ == o@[k].0@ && json_view(out@[k].1)
                                == json_view(o@[k].1),
                    decreases n - i,
                {
                    proof {
                        broadcast use vstd::std_specs::vec::group_vec_axioms;
                        assert(decreases_to!(*o => o[i as int]));
                        assert(decreases_to!(o[i as int] => o[i as int].1));
                        assert(decreases_to!(*self => (*self)->Object_0));
                        assert(decreases_to!(*self => o[i as int].1));
                    }
                    let c = o[i].1.deep_copy();
                    let name = o[i].0.clone();
                    out.push((name, c));
                    i = i + 1;
                }
                let ghost xs = Seq::new(
                    out@.len(),
                    |k: int|
                        if 0 <= k < out@.len() {
                            (out@[k].0@, json_view(out@[k].1))
                        } else {
                            (Seq::<char>::empty(), Json::Null)
                        },
                );
                let ghost ys = Seq::new(
                    o@.len(),
                    |k: int|
                        if 0 <= k < o@.len() {
                            (o@[k].0@, json_view(o@[k].1))
                        } else {
                            (Seq::<char>::empty(), Json::Null)
                        },
                );
                proof {
                    assert forall|k: int| 0 <= k < xs.len() implies xs[k] == ys[k] by {
                        assert(out@[k].0@ == o@[k].0@ && json_view(out@[k].1) == json_view(o@[k].1));
                    }
                    assert(xs =~= ys);
                }
                let r = JsonValue::Object(out);
                proof {
                    match (r@, self@) {
                        (Json::Object(x), Json::Object(y)) => {
                            assert(x =~= xs);
                            assert(y =~= ys);
                        },
                        _ => {},
                    }
                }
                r
            },
        }
    }
}

/// The position of the member called `name`, if any.
pub fn find_member(members: &Vec<(String, JsonValue)>, name: &str) -> (r: Option<usize>)
    ensures
        match r {
            Some(i) => i < members@.len() && members@[i as int].0@ == name@ && forall|k: int|
                0 <= k < i ==> members@[k].0@ != name@,
            None => forall|k: int| 0 <= k < members@.len() ==> members@[k].0@ != name@,
        },
{
    let n = members.len();
    let mut i: usize = 0;
    while i < n
        invariant
            n == members@.len(),
            i <= n,
            forall|k: int| 0 <= k < i ==> members@[k].0@ != name@,
        decreases n - i,
    {
        if str_eq(members[i].0.as_str(), name) {
            return Some(i);
        }
        i = i + 1;
    }
    None
}

/// The views of an object's members.
pub open spec fn members_view(v: Seq<(String, JsonValue)>) -> Seq<(Seq<char>, Json)> {
    Seq::new(v.len(), |i: int| (v[i].0@, v[i].1@))
}

/// The view of an object is the view of its members.
pub proof fn lemma_object_view(v: Vec<(String, JsonValue)>)
    ensures
        JsonValue::Object(v)@ == Json::Object(members_view(v@)),
{
    let x = JsonValue::Object(v)@;
    match x {
        Json::Object(m) => {
            assert(m =~= members_view(v@));
        },
        _ => {},
    }
}

/// The view of an array is the views of its elements.
pub proof fn lemma_array_view(v: Vec<JsonValue>)
    ensures
        JsonValue::Array(v)@ == Json::Array(json_seq(v@)),
{
    let x = JsonValue::Array(v)@;
    match x {
        Json::Array(a) => {
            assert(a =~= json_seq(v@));
        },
        _ => {},
    }
}

/// Sets the member `name` of an object to `value`: the member is replaced
/// where it exists, appended otherwise.
pub fn set_member(members: &mut Vec<(String, JsonValue)>, name: String, value: JsonValue)
    ensures
        ({
            let m = members_view(old(members)@);
            let n = members_view(final(members)@);
            &&& member_names(m).no_duplicates() ==> member_names(n).no_duplicates()
            &&& exists|i: int| 0 <= i < n.len() && n[i] == (name@, value@)
            &&& forall|i: int|
                0 <= i < n.len() ==> n[i] == (name@, value@) || m.contains(#[trigger] n[i])
            &&& forall|j: int| 0 <= j < m.len() && m[j].0 != name@ ==> n.contains(#[trigger] m[j])
        }),
{
    let ghost m = members_view(members@);
    let ghost pair = (name@, value@);
    match find_member(members, name.as_str()) {
        Some(i) => {
            members.set(i, (name, value));
            proof {
                let n = members_view(members@);
                assert(n =~= m.update(i as int, pair));
                assert(n[i as int] == pair);
                assert forall|k: int| 0 <= k < n.len() implies n[k] == pair || m.contains(#[trigger] n[k]) by {
                    if k != i {
                        assert(n[k] == m[k]);
                    }
                }
                assert forall|j: int| 0 <= j < m.len() && m[j].0 != pair.0 implies n.contains(#[trigger] m[j]) by {
                    assert(n[j] == m[j]);
                }
                if member_names(m).no_duplicates() {
                    assert forall|a: int, b: int| 0 <= a < b < n.len() implies member_names(n)[a] != member_names(n)[b] by {
                        assert(member_names(m)[a] != member_names(m)[b]);
                    }
                }
            }
        },
        None => {
            members.push((name, value));
            proof {
                let n = members_view(members@);
                assert(n =~= m.push(pair));
                assert(n[m.len() as int] == pair);
                assert forall|k: int| 0 <= k < n.len() implies n[k] == pair || m.contains(#[trigger] n[k]) by {
                    if k < m.len() {
                        assert(n[k] == m[k]);
                    }
                }
                assert forall|j: int| 0 <= j < m.len() && m[j].0 != pair.0 implies n.contains(#[trigger] m[j]) by {
                    assert(n[j] == m[j]);
                }
                if member_names(m).no_duplicates() {
                    assert forall|a: int, b: int| 0 <= a < b < n.len() implies member_names(n)[a] != member_names(n)[b] by {
                        if b < m.len() {
                            assert(member_names(m)[a] != member_names(m)[b]);
                        }
                    }
                }
            }
        },
    }
}

/// With distinct names, the member at `i` is the one found by its name.
pub proof fn lemma_member_found(m: Seq<(Seq<char>, Json)>, i: int)
    requires
        member_names(m).no_duplicates(),
        0 <= i < m.len(),
    ensures
        member(m, m[i].0) == Some(m[i].1),
    decreases m.len(),
{
    if i > 0 {
        assert(member_names(m)[0] != member_names(m)[i]);
        let d = m.drop_first();
        assert(member_names(d).no_duplicates()) by {
            assert forall|a: int, b: int| 0 <= a < b < d.len() implies member_names(d)[a] != member_names(d)[b] by {
                assert(member_names(m)[a + 1] != member_names(m)[b + 1]);
            }
        }
        assert(d[i - 1] == m[i]);
        lemma_member_found(d, i - 1);
    }
}

/// The member found first under a name is the one `member` gives.
pub proof fn lemma_member_first(m: Seq<(Seq<char>, Json)>, name: Seq<char>, i: int)
    requires
        0 <= i < m.len(),
        m[i].0 == name,
        forall|k: int| 0 <= k < i ==> m[k].0 != name,
    ensures
        member(m, name) == Some(m[i].1),
    decreases i,
{
    if i > 0 {
        lemma_member_first(m.drop_first(), name, i - 1);
    }
}

/// A name no member has gives nothing.
pub proof fn lemma_member_absent(m: Seq<(Seq<char>, Json)>, name: Seq<char>)
    requires
        forall|k: int| 0 <= k < m.len() ==> m[k].0 != name,
    ensures
        member(m, name) is None,
    decreases m.len(),
{
    if m.len() > 0 {
        lemma_member_absent(m.drop_first(), name);
    }
}

/// The value of an object's field `name`; nothing for other values.
pub fn get<'a>(v: &'a JsonValue, name: &str) -> (r: Option<&'a JsonValue>)
    ensures
        match r {
            Some(x) => field(v@, name@) == Some(x@),
            None => field(v@, name@) is None,
        },
{
    match v {
        JsonValue::Object(members) => {
            proof {
                lemma_object_view(*members);
            }
            let ghost m = members_view(members@);
            match find_member(members, name) {
                Some(i) => {
                    proof {
                        assert(m[i as int] == (members@[i as int].0@, members@[i as int].1@));
                        assert forall|k: int| 0 <= k < i implies m[k].0 != name@ by {
                            assert(m[k].0 == members@[k].0@);
                        }
                        lemma_member_first(m, name@, i as int);
                    }
                    Some(&members[i].1)
                },
                None => {
                    proof {
                        assert forall|k: int| 0 <= k < m.len() implies m[k].0 != name@ by {
                            assert(m[k].0 == members@[k].0@);
                        }
                        lemma_member_absent(m, name@);
                    }
                    None
                },
            }
        },
        _ => None,
    }
}

} // verus!
