use kubefuzz::cli::{all_files_verdict, dir_verdict, file_verdict, list_paths, log_filter};
use kubefuzz::json::JsonValue;
use kubefuzz::mutator::gen::{gen_property as simple_property, gen_resource as simple_resource};
use kubefuzz::mutator::rand as mrand;
use kubefuzz::pattern::{regex_matches, Pattern};
use kubefuzz::resource::{add_constraint, find_gvk, gvk_dir_name, gvk_parts, put_constraint, resource_gvk, GvkError};
use kubefuzz::schema::K8sResourceSpec;

const PRINTABLE: &str = "abcdefghijklmnopqrstuvwxyzABCDEFGHIJKLMNOPQRSTUVWXYZ0123456789!@#$%^&*()-_=+[{]};:'\",<.>/?";

fn node(ty: &str) -> K8sResourceSpec {
    K8sResourceSpec {
        _type: ty.to_string(),
        properties: vec![],
        _enum: vec![],
        _enum_regex: vec![],
        required: vec![],
        minmax: None,
        items: None,
        format: None,
        is_quant: false,
        additional_properties: None,
        gvk: None,
        group: None,
        version: None,
        kind: None,
    }
}

fn with_gvk(gvk: &str, ty: &str) -> K8sResourceSpec {
    let mut n = node(ty);
    n.gvk = Some(gvk.to_string());
    n
}

fn resource(members: Vec<(&str, JsonValue)>) -> JsonValue {
    JsonValue::Object(members.into_iter().map(|(k, v)| (k.to_string(), v)).collect())
}

fn s(t: &str) -> JsonValue {
    JsonValue::Str(t.to_string())
}

#[test]
fn gvk_of_core_and_grouped_resources() {
    let pod = resource(vec![("apiVersion", s("v1")), ("kind", s("Pod"))]);
    assert_eq!(resource_gvk(&pod), Ok(".v1.Pod".to_string()));
    let dep = resource(vec![("kind", s("Deployment")), ("apiVersion", s("apps/v1"))]);
    assert_eq!(resource_gvk(&dep), Ok("apps.v1.Deployment".to_string()));
}

#[test]
fn gvk_errors() {
    assert_eq!(resource_gvk(&resource(vec![("apiVersion", s("v1"))])), Err(GvkError::NoKind));
    assert_eq!(resource_gvk(&resource(vec![("kind", JsonValue::Int(1))])), Err(GvkError::KindNotString));
    assert_eq!(resource_gvk(&resource(vec![("kind", s("Pod"))])), Err(GvkError::NoApiVersion));
    assert_eq!(
        resource_gvk(&resource(vec![("kind", s("Pod")), ("apiVersion", JsonValue::Bool(true))])),
        Err(GvkError::ApiVersionNotString)
    );
    assert_eq!(
        resource_gvk(&resource(vec![("kind", s("Pod")), ("apiVersion", s("a/b/c"))])),
        Err(GvkError::ApiVersionMalformed)
    );
    assert_eq!(resource_gvk(&JsonValue::Null), Err(GvkError::NoKind));
}

#[test]
fn gvk_directories() {
    assert_eq!(gvk_dir_name(".v1.Pod"), "v1.Pod");
    assert_eq!(gvk_dir_name("apps.v1.Deployment"), "apps.v1.Deployment");
    assert_eq!(gvk_dir_name("a/b.v1.K"), "ab.v1.K");
    assert_eq!(gvk_dir_name("/.v1.K"), "v1.K");
    assert_eq!(gvk_dir_name("..x"), ".x");
}

#[test]
fn gvk_parts_for_the_api() {
    assert_eq!(gvk_parts(".v1.Pod"), ("".to_string(), "v1".to_string(), "Pod".to_string()));
    assert_eq!(gvk_parts("apps.v1.Deployment"), ("apps".to_string(), "v1".to_string(), "Deployment".to_string()));
    assert_eq!(gvk_parts("a.b.c.d"), ("a".to_string(), "b".to_string(), "c".to_string()));
}

#[test]
fn constraints_by_gvk() {
    let mut specs: Vec<K8sResourceSpec> = vec![];
    assert!(add_constraint(&mut specs, with_gvk(".v1.Pod", "object")).is_ok());
    assert!(add_constraint(&mut specs, with_gvk("apps.v1.Deployment", "object")).is_ok());
    assert_eq!(add_constraint(&mut specs, with_gvk(".v1.Pod", "string")), Err(".v1.Pod".to_string()));
    assert_eq!(specs.len(), 2);
    assert_eq!(find_gvk(&specs, "apps.v1.Deployment"), Some(1));
    assert_eq!(find_gvk(&specs, "x"), None);
    put_constraint(&mut specs, with_gvk(".v1.Pod", "string"));
    assert_eq!(specs.len(), 2);
    assert_eq!(specs[0]._type, "string");
    put_constraint(&mut specs, with_gvk("b.v1.K", "object"));
    assert_eq!(specs.len(), 3);
}

#[test]
fn path_verdicts() {
    assert_eq!(file_verdict(true), Ok(()));
    assert_eq!(file_verdict(false), Err("Specified path is not a file or does not exist".to_string()));
    assert_eq!(dir_verdict("/tmp", true), Ok("/tmp".to_string()));
    assert_eq!(
        dir_verdict("/nope", false),
        Err("Specified path is not a directory or does not exist".to_string())
    );
}

#[test]
fn file_list_verdicts() {
    assert_eq!(list_paths("a.yaml,b.yaml"), vec!["a.yaml", "b.yaml"]);
    assert_eq!(all_files_verdict("a.yaml,b.yaml", &vec![true, true]), Ok("a.yaml,b.yaml".to_string()));
    assert_eq!(
        all_files_verdict("a.yaml,b.yaml,c.yaml", &vec![true, false, false]),
        Err("Specified path 'b.yaml' is not a file or does not exist".to_string())
    );
}

#[test]
fn logging_filter() {
    assert_eq!(log_filter(None), "info,kube_client=off,tower=off,hyper=off");
    assert_eq!(log_filter(Some("debug")), "debug,kube_client=off,tower=off,hyper=off");
}

#[test]
fn regular_expressions() {
    assert_eq!(regex_matches("containers\\..*name", "$.spec.containers.name"), Some(true));
    assert_eq!(regex_matches("^metadata", "$.metadata"), Some(false));
    assert_eq!(regex_matches("(", "x"), None);
    let p = Pattern::new("a+b").unwrap();
    assert!(p.is_match("xaab"));
    assert!(!p.is_match("xb"));
}

fn object(props: Vec<(&str, K8sResourceSpec)>) -> K8sResourceSpec {
    let mut n = node("object");
    n.properties = props.into_iter().map(|(k, v)| (k.to_string(), v)).collect();
    n
}

#[test]
fn simple_generator_values() {
    let mut rng = mrand::seed(3);
    let mut arr = node("array");
    arr.items = Some(Box::new(node("integer")));
    arr.minmax = Some((2, 3));
    let mut spec = object(vec![("s", node("string")), ("b", node("boolean")), ("n", node("integer")), ("a", arr)]);
    spec.required = vec!["s".to_string(), "a".to_string()];
    for _ in 0..30 {
        match simple_resource(&mut rng, &spec) {
            JsonValue::Object(m) => {
                assert!(m.iter().any(|(k, _)| k == "s"));
                for (k, v) in &m {
                    match (k.as_str(), v) {
                        ("s", JsonValue::Str(t)) => {
                            assert!(1 <= t.len() && t.len() < 25);
                            assert!(t.chars().all(|c| PRINTABLE.contains(c)));
                        },
                        ("b", JsonValue::Bool(_)) => {},
                        ("n", JsonValue::Int(x)) => assert!(0 <= *x && *x < i64::MAX),
                        ("a", JsonValue::Array(xs)) => {
                            assert!(2 <= xs.len() && xs.len() <= 3);
                            assert!(xs.iter().all(|x| matches!(x, JsonValue::Int(i) if *i >= 0)));
                        },
                        _ => panic!("unexpected member"),
                    }
                }
            },
            _ => panic!("not an object"),
        }
    }
    let mut e = node("string");
    e._enum = vec![s("x")];
    assert_eq!(simple_property(&mut rng, &e), s("x"));
}

#[test]
fn simple_random_helpers() {
    let mut rng = mrand::seed(9);
    let t = mrand::gen_printable_string(&mut rng, 8);
    assert_eq!(t.len(), 8);
    let r = mrand::gen_range(&mut rng, 3, 4);
    assert_eq!(r, 3);
    assert!(mrand::rand_i64(&mut rng) >= 0);
    let mut a = mrand::seed(1);
    let mut b = mrand::seed(1);
    assert_eq!(mrand::gen(&mut a), mrand::gen(&mut b));
    let mut v = vec![1, 2, 3];
    mrand::shuffle(&mut rng, &mut v);
    v.sort();
    assert_eq!(v, vec![1, 2, 3]);
}
