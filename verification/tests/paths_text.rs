use kubefuzz::json::{get, JsonValue};
use kubefuzz::paths::{join_child, normalize_path, path_allowed};
use kubefuzz::load::schema_file_name;
use kubefuzz::text::{contains, join, split, str_eq, u64_to_string, i64_to_string};

#[test]
fn path_allowed_below_an_allowed_path() {
    assert!(path_allowed("$.spec.containers.name", "$.spec"));
    assert!(path_allowed("$.spec.containers", "$.spec.containers"));
}

#[test]
fn path_allowed_above_an_allowed_path() {
    assert!(path_allowed("$.spec", "$.spec.containers"));
    assert!(path_allowed("$", "$.spec.containers"));
}

#[test]
fn path_allowed_on_another_branch() {
    assert!(!path_allowed("$.metadata", "$.spec"));
    assert!(!path_allowed("$.spec", "$.specx"));
    assert!(!path_allowed("$.spec.volumes", "$.spec.containers.name"));
}

#[test]
fn path_allowed_is_symmetric_on_examples() {
    let pairs = [
        ("$.a.b", "$.a"),
        ("$.a", "$.b"),
        ("$.a.b.c", "$.a.b"),
        ("x", "x.y"),
        ("$.a.c", "$.a.b"),
    ];
    for (p, q) in pairs {
        assert_eq!(path_allowed(p, q), path_allowed(q, p));
    }
}

#[test]
fn normalize_drops_empty_segments() {
    assert_eq!(normalize_path("$..spec."), "$.spec");
    assert_eq!(normalize_path("$.spec.containers"), "$.spec.containers");
    assert_eq!(normalize_path(".spec"), "spec");
    assert_eq!(normalize_path(""), "");
}

#[test]
fn normalize_is_idempotent_on_examples() {
    for p in ["$..a...b", ".x.", "a.b", ""] {
        let once = normalize_path(p);
        assert_eq!(normalize_path(&once), once);
    }
}

#[test]
fn join_child_adds_a_dot() {
    assert_eq!(join_child("$.spec", "containers"), "$.spec.containers");
    assert_eq!(join_child("$", "kind"), "$.kind");
}

#[test]
fn split_keeps_empty_parts() {
    assert_eq!(split("a,b,,c", ','), vec!["a", "b", "", "c"]);
    assert_eq!(split("", ','), vec![""]);
    assert_eq!(split("a,", ','), vec!["a", ""]);
}

#[test]
fn join_undoes_split() {
    for s in ["a.b.c", "", "..", "x"] {
        let parts = split(s, '.');
        assert_eq!(join(&parts, '.'), s);
    }
}

#[test]
fn decimal_text() {
    assert_eq!(u64_to_string(0), "0");
    assert_eq!(u64_to_string(1234567890), "1234567890");
    assert_eq!(u64_to_string(u64::MAX), "18446744073709551615");
    assert_eq!(i64_to_string(-42), "-42");
    assert_eq!(i64_to_string(i64::MIN), "-9223372036854775808");
}

#[test]
fn contains_and_str_eq() {
    assert!(contains("dial tcp: connection refused", "connection refused"));
    assert!(!contains("connection reset", "connection refused"));
    assert!(contains("abc", ""));
    assert!(str_eq("Pod", "Pod"));
    assert!(!str_eq("Pod", "pod"));
}

#[test]
fn schema_file_of_a_kind() {
    assert_eq!(schema_file_name("NetworkPolicy"), Some("networkpolicy.json".to_string()));
    assert_eq!(schema_file_name("Pod"), Some("pod.json".to_string()));
    assert_eq!(schema_file_name("a.B"), Some("a.json".to_string()));
    assert_eq!(schema_file_name("x.y.z"), Some("x.y.json".to_string()));
    assert_eq!(schema_file_name(".hidden"), Some(".hidden.json".to_string()));
    assert_eq!(schema_file_name("trailing."), Some("trailing.json".to_string()));
    assert_eq!(schema_file_name(""), None);
    assert_eq!(schema_file_name(".."), None);
    assert_eq!(schema_file_name("a/b"), None);
}

#[test]
fn get_reads_the_first_member() {
    let v = JsonValue::Object(vec![
        ("kind".to_string(), JsonValue::Str("Pod".to_string())),
        ("apiVersion".to_string(), JsonValue::Str("v1".to_string())),
    ]);
    assert_eq!(get(&v, "kind"), Some(&JsonValue::Str("Pod".to_string())));
    assert_eq!(get(&v, "spec"), None);
    assert_eq!(get(&JsonValue::Int(3), "kind"), None);
}

#[test]
fn deep_copy_is_equal() {
    let v = JsonValue::Object(vec![(
        "a".to_string(),
        JsonValue::Array(vec![JsonValue::Int(1), JsonValue::Null, JsonValue::Number("1.5".to_string())]),
    )]);
    assert_eq!(v.deep_copy(), v);
}
