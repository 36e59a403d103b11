use kubefuzz::conf::{ConstraintConfig, FieldConfig};
use kubefuzz::generator::gen::{check_generatable, check_resource_root, fixed_patterns_compile, GenError, gen_bool, gen_property, gen_resource, gen_string, rand_enum_val};
use kubefuzz::generator::rand::{
    chance, check_repetitions, gen_printable_string, gen_range, gen_range_usize, gen_u64, rand_date_time, rand_int, rand_str_regex, seed,
    seedrand, shuffle,
};
use kubefuzz::json::{get, JsonValue};
use kubefuzz::load::constrain_loaded;
use kubefuzz::mutator::{check_object_mutable, mutate_resource};
use kubefuzz::schema::K8sResourceSpec;

const PRINTABLE: &str = "abcdefghijklmnopqrstuvwxyzABCDEFGHIJKLMNOPQRSTUVWXYZ0123456789!@#$%^&*()-_=+[{]};:'\",<.>/?";

fn node(ty: &str) -> K8sResourceSpec {
    K8sResourceSpec {
        _type: ty.to_string(),
        properties: vec![],
        _enum: vec![],
        _enum_regex: vec![],
        required: vec![],
        minmax: None,
        items: None,
        format: None,
        is_quant: false,
        additional_properties: None,
        gvk: None,
        group: None,
        version: None,
        kind: None,
    }
}

fn object(props: Vec<(&str, K8sResourceSpec)>) -> K8sResourceSpec {
    let mut n = node("object");
    n.properties = props.into_iter().map(|(k, v)| (k.to_string(), v)).collect();
    n
}

fn array(items: K8sResourceSpec) -> K8sResourceSpec {
    let mut n = node("array");
    n.items = Some(Box::new(items));
    n
}

fn rule(path: &str) -> FieldConfig {
    FieldConfig {
        path: path.to_string(),
        values: None,
        regex_values: None,
        values_mode: None,
        required: false,
        minmax: None,
        remove: false,
        regex: false,
    }
}

fn pod_spec() -> K8sResourceSpec {
    let container = object(vec![
        ("name", node("string")),
        ("image", node("string")),
        ("securityContext", object(vec![("privileged", node("boolean"))])),
    ]);
    let schema = object(vec![
        ("apiVersion", node("string")),
        ("kind", node("string")),
        ("metadata", object(vec![("name", node("string"))])),
        ("spec", object(vec![("containers", array(container)), ("hostNetwork", node("boolean"))])),
    ]);
    let mut containers = rule("$.spec.containers");
    containers.minmax = Some((1, 3));
    let mut name = rule("$.spec.containers.name");
    name.required = true;
    let mut privileged = rule("$.spec.containers.securityContext.privileged");
    privileged.values = Some(vec![JsonValue::Bool(true)]);
    privileged.required = true;
    let c = ConstraintConfig {
        group: "".to_string(),
        version: "v1".to_string(),
        kind: "Pod".to_string(),
        fields: vec![containers, name, privileged],
    };
    constrain_loaded(c, schema).ok().unwrap()
}

fn text(v: Option<&JsonValue>) -> Option<String> {
    match v {
        Some(JsonValue::Str(s)) => Some(s.clone()),
        _ => None,
    }
}

fn keys(v: &JsonValue) -> Vec<String> {
    match v {
        JsonValue::Object(m) => m.iter().map(|(k, _)| k.clone()).collect(),
        _ => vec![],
    }
}

fn check_pod(v: &JsonValue) {
    let spec = get(v, "spec").unwrap();
    let containers = match get(spec, "containers").unwrap() {
        JsonValue::Array(a) => a,
        _ => panic!("containers is not an array"),
    };
    assert!(1 <= containers.len() && containers.len() <= 3);
    for c in containers {
        assert!(text(get(c, "name")).is_some());
        let sc = get(c, "securityContext").unwrap();
        assert_eq!(get(sc, "privileged"), Some(&JsonValue::Bool(true)));
    }
}

#[test]
fn generated_resources_carry_their_identity() {
    let spec = pod_spec();
    assert!(check_generatable(&spec));
    assert!(check_resource_root(&spec));
    let mut rng = seed(1);
    let mut count: u64 = 0;
    for i in 0..20u64 {
        let v = gen_resource(&mut rng, &mut count, &spec).ok().unwrap();
        assert_eq!(count, i + 1);
        assert_eq!(text(get(&v, "apiVersion")).as_deref(), Some("v1"));
        assert_eq!(text(get(&v, "kind")).as_deref(), Some("Pod"));
        let name = text(get(get(&v, "metadata").unwrap(), "name")).unwrap();
        assert_eq!(name, format!("kubefuzz-{}", i));
    }
}

#[test]
fn generated_resources_conform_to_the_constraint() {
    let spec = pod_spec();
    let mut rng = seed(2);
    let mut count: u64 = 0;
    for _ in 0..50 {
        let v = gen_resource(&mut rng, &mut count, &spec).ok().unwrap();
        for k in keys(&v) {
            assert!(["apiVersion", "kind", "metadata", "spec"].contains(&k.as_str()));
        }
        check_pod(&v);
    }
}

#[test]
fn group_goes_into_api_version() {
    let mut spec = pod_spec();
    spec.group = Some("apps".to_string());
    let mut rng = seed(3);
    let mut count: u64 = 41;
    let v = gen_resource(&mut rng, &mut count, &spec).ok().unwrap();
    assert_eq!(text(get(&v, "apiVersion")).as_deref(), Some("apps/v1"));
    assert_eq!(text(get(get(&v, "metadata").unwrap(), "name")).as_deref(), Some("kubefuzz-41"));
}

#[test]
fn mutation_keeps_identity_and_fills_fields() {
    let spec = pod_spec();
    let mut rng = seed(4);
    let mut count: u64 = 0;
    for _ in 0..100 {
        let mut v = gen_resource(&mut rng, &mut count, &spec).ok().unwrap();
        let api = get(&v, "apiVersion").unwrap().deep_copy();
        let kind = get(&v, "kind").unwrap().deep_copy();
        let md = get(&v, "metadata").unwrap().deep_copy();
        assert!(check_object_mutable(&v, &spec, "$"));
        assert!(mutate_resource(&mut rng, &mut v, &spec).is_ok());
        assert_eq!(get(&v, "apiVersion"), Some(&api));
        assert_eq!(get(&v, "kind"), Some(&kind));
        assert_eq!(get(&v, "metadata"), Some(&md));
        assert!(get(&v, "spec").is_some());
    }
}

#[test]
fn null_fields_cannot_be_mutated() {
    let spec = pod_spec();
    let v = JsonValue::Object(vec![("spec".to_string(), JsonValue::Null)]);
    assert!(!check_object_mutable(&v, &spec, "$"));
    assert!(!check_object_mutable(&JsonValue::Int(1), &spec, "$"));
}

#[test]
fn same_seed_same_numbers() {
    let mut a = seed(42);
    let mut b = seed(42);
    for _ in 0..10 {
        assert_eq!(gen_u64(&mut a), gen_u64(&mut b));
    }
}

#[test]
fn os_seed_is_reported() {
    let (s, mut a) = seedrand();
    let mut b = seed(s);
    for _ in 0..5 {
        assert_eq!(gen_u64(&mut a), gen_u64(&mut b));
    }
}

#[test]
fn ranges_are_respected() {
    let mut rng = seed(5);
    for _ in 0..200 {
        let x = gen_range(&mut rng, -3, 4);
        assert!(-3 <= x && x < 4);
        let y = gen_range_usize(&mut rng, 10, 11);
        assert_eq!(y, 10);
        assert!(rand_int(&mut rng) < i64::MAX);
    }
}

#[test]
fn chance_bounds() {
    let mut rng = seed(6);
    for _ in 0..100 {
        assert!(!chance(&mut rng, 0));
        assert!(chance(&mut rng, 100));
    }
}

#[test]
fn printable_strings() {
    let mut rng = seed(7);
    let s = gen_printable_string(&mut rng, 40, None);
    assert_eq!(s.chars().count(), 40);
    assert!(s.chars().all(|c| PRINTABLE.contains(c)));
    let t = gen_printable_string(&mut rng, 12, Some("ab"));
    assert_eq!(t.len(), 12);
    assert!(t.chars().all(|c| c == 'a' || c == 'b'));
    assert_eq!(gen_printable_string(&mut rng, 0, None), "");
}

#[test]
fn shuffle_keeps_the_elements() {
    let mut rng = seed(8);
    let mut v: Vec<u32> = (0..30).collect();
    shuffle(&mut rng, &mut v);
    let mut sorted = v.clone();
    sorted.sort();
    assert_eq!(sorted, (0..30).collect::<Vec<u32>>());
}

#[test]
fn regex_strings() {
    let mut rng = seed(9);
    let s = rand_str_regex(&mut rng, "[a-z]{3}").unwrap();
    assert_eq!(s.len(), 3);
    assert!(s.chars().all(|c| c.is_ascii_lowercase()));
    assert!(rand_str_regex(&mut rng, "(").is_none());
}

#[test]
fn date_times_are_rfc3339() {
    let mut rng = seed(10);
    let s = rand_date_time(&mut rng);
    let b = s.as_bytes();
    assert_eq!(b.len(), 20);
    assert_eq!(b[4], b'-');
    assert_eq!(b[10], b'T');
    assert_eq!(b[19], b'Z');
}

fn string_of(rng: &mut kubefuzz::generator::rand::Rng, name: &str, format: Option<&str>, quant: bool) -> JsonValue {
    gen_string(rng, name, &format.map(|f| f.to_string()), quant).ok().unwrap()
}

#[test]
fn strings_by_field_name() {
    let mut rng = seed(11);
    for _ in 0..50 {
        match string_of(&mut rng, "containerPort", None, false) {
            JsonValue::Str(s) => assert!(s.parse::<u32>().unwrap() < 65535),
            _ => panic!("port is not a string"),
        }
        match string_of(&mut rng, "hostIP", None, false) {
            JsonValue::Str(s) => {
                let parts: Vec<&str> = s.split('.').collect();
                assert_eq!(parts.len(), 4);
                assert!(parts.iter().all(|p| p.parse::<u32>().unwrap() < 256));
            },
            _ => panic!("ip is not a string"),
        }
        match string_of(&mut rng, "Name", None, false) {
            JsonValue::Str(s) => {
                assert!(1 <= s.len() && s.len() <= 15);
                assert!(s.chars().all(|c| c.is_ascii_lowercase()));
            },
            _ => panic!("name is not a string"),
        }
        match string_of(&mut rng, "runAsGroup", None, false) {
            JsonValue::Str(s) => {
                assert!(1 <= s.len() && s.len() < 15);
                assert!(s.chars().all(|c| "_-abcdefghijklmnopqrstuvwxyz".contains(c)));
            },
            _ => panic!("group is not a string"),
        }
        assert!(matches!(string_of(&mut rng, "port2", Some("int-or-string"), false), JsonValue::Str(_)));
        assert!(matches!(string_of(&mut rng, "value", Some("int-or-string"), false), JsonValue::Int(_)));
        match string_of(&mut rng, "cpu", None, true) {
            JsonValue::Str(s) => {
                let unit = s.chars().last().unwrap();
                assert!("mkMGTPE".contains(unit));
            },
            _ => panic!("quantity is not a string"),
        }
        match string_of(&mut rng, "image", None, false) {
            JsonValue::Str(s) => {
                assert!(1 <= s.chars().count() && s.chars().count() < 15);
                assert!(s.chars().all(|c| PRINTABLE.contains(c)));
            },
            _ => panic!("text is not a string"),
        }
    }
}

#[test]
fn booleans_and_enums() {
    let mut rng = seed(12);
    assert!(matches!(gen_bool(&mut rng), JsonValue::Bool(_)));
    let values = vec![JsonValue::Int(1), JsonValue::Int(2)];
    for _ in 0..20 {
        let v = rand_enum_val(&mut rng, &values, &vec![]).ok().unwrap().unwrap();
        assert!(values.contains(&v));
    }
    assert!(rand_enum_val(&mut rng, &vec![], &vec![]).ok().unwrap().is_none());
    let patterns = vec!["x[0-9]".to_string()];
    match rand_enum_val(&mut rng, &vec![], &patterns).ok().unwrap().unwrap() {
        JsonValue::Str(s) => assert!(s.len() == 2 && s.starts_with('x')),
        _ => panic!("pattern value is not a string"),
    }
}

#[test]
fn integers_by_field_name() {
    let mut rng = seed(13);
    for _ in 0..50 {
        match gen_property(&mut rng, &node("integer"), "hostPort").ok().unwrap() {
            JsonValue::Int(n) => assert!(0 <= n && n < 65535),
            _ => panic!("port is not an integer"),
        }
        match gen_property(&mut rng, &node("integer"), "runAsUser").ok().unwrap() {
            JsonValue::Int(n) => assert!(0 <= n && n < 2147483647),
            _ => panic!("user is not an integer"),
        }
        let mut i32node = node("integer");
        i32node.format = Some("int32".to_string());
        match gen_property(&mut rng, &i32node, "replicas").ok().unwrap() {
            JsonValue::Int(n) => assert!(i32::MIN as i64 <= n && n < i32::MAX as i64),
            _ => panic!("int32 is not an integer"),
        }
    }
}

#[test]
fn arrays_within_bounds() {
    let mut rng = seed(14);
    let mut arr = array(node("boolean"));
    arr.minmax = Some((2, 4));
    for _ in 0..50 {
        match gen_property(&mut rng, &arr, "flags").ok().unwrap() {
            JsonValue::Array(a) => {
                assert!(2 <= a.len() && a.len() <= 4);
                assert!(a.iter().all(|e| matches!(e, JsonValue::Bool(_))));
            },
            _ => panic!("not an array"),
        }
    }
}

#[test]
fn objects_without_fields_are_null() {
    let mut rng = seed(15);
    assert_eq!(gen_property(&mut rng, &node("object"), "empty").ok().unwrap(), JsonValue::Null);
}

#[test]
fn unknown_types_cannot_be_generated() {
    assert!(!check_generatable(&node("float")));
    let mut bad = array(node("string"));
    bad.minmax = Some((3, 2));
    assert!(!check_generatable(&bad));
    let mut missing = object(vec![("a", node("string"))]);
    missing.required = vec!["b".to_string()];
    assert!(!check_generatable(&missing));
    assert!(check_generatable(&object(vec![("a", node("string"))])));
}

#[test]
fn same_state_same_draws() {
    let mut a = seed(77);
    let mut b = seed(77);
    for _ in 0..20 {
        let coin = gen_range(&mut b, 0, 2) == 1;
        assert_eq!(gen_bool(&mut a), JsonValue::Bool(coin));
    }
    let mut x: Vec<u32> = (0..10).collect();
    let mut y: Vec<u32> = (0..10).collect();
    shuffle(&mut a, &mut x);
    shuffle(&mut b, &mut y);
    assert_eq!(x, y);
    assert_eq!(rand_int(&mut a), gen_range(&mut b, i64::MIN, i64::MAX));
}

#[test]
fn fixed_string_patterns_compile() {
    assert!(fixed_patterns_compile());
}

#[test]
fn fractional_numbers_are_mutated_or_refused_for_arithmetic() {
    let spec = object(vec![("ratio", node("number"))]);
    let mut saw_ok = false;
    let mut saw_err = false;
    for k in 0..60 {
        let mut rng = seed(100 + k);
        let mut v = JsonValue::Object(vec![("ratio".to_string(), JsonValue::Number("1.5".to_string()))]);
        assert!(check_object_mutable(&v, &spec, "$"));
        match mutate_resource(&mut rng, &mut v, &spec) {
            Ok(()) => {
                saw_ok = true;
                match get(&v, "ratio") {
                    Some(JsonValue::Int(_)) | Some(JsonValue::Number(_)) | None => {},
                    other => panic!("unexpected value {:?}", other),
                }
            },
            Err(GenError::NotAnInteger(t)) => {
                saw_err = true;
                assert_eq!(t, "1.5");
            },
            Err(e) => panic!("unexpected error {:?}", e),
        }
    }
    assert!(saw_ok);
    assert!(saw_err);
}

#[test]
fn oversized_repetitions_are_refused() {
    assert!(check_repetitions("[a-z]{1,15}"));
    assert!(check_repetitions("([+-]?[0-9]+)(m|k|M|G|T|P|E)"));
    assert!(check_repetitions("a{3}b{2,}c{0,4}"));
    assert!(!check_repetitions("a{4294967290,}"));
    assert!(!check_repetitions("a{99999999999}"));
    assert!(!check_repetitions("a{x}"));
    assert!(!check_repetitions("a{3"));
    let mut rng = seed(21);
    assert!(rand_str_regex(&mut rng, "a{4294967290,}").is_none());
    let patterns = vec!["a{4294967290,}".to_string()];
    match rand_enum_val(&mut rng, &vec![], &patterns) {
        Err(GenError::BadRegex(p)) => assert_eq!(p, "a{4294967290,}"),
        other => panic!("unexpected {:?}", other.is_ok()),
    }
}
