use kubefuzz::conf::{ConstraintConfig, FieldConfig, ValuesMode};
use kubefuzz::constrain::{constrain_spec, ConstrainError};
use kubefuzz::json::JsonValue;
use kubefuzz::load::{config_format, constrain_loaded, prepare_config, ConfigFormat, LoadError};
use kubefuzz::schema::{check_schema, K8sResourceSpec};

fn node(ty: &str) -> K8sResourceSpec {
    K8sResourceSpec {
        _type: ty.to_string(),
        properties: vec![],
        _enum: vec![],
        _enum_regex: vec![],
        required: vec![],
        minmax: None,
        items: None,
        format: None,
        is_quant: false,
        additional_properties: None,
        gvk: None,
        group: None,
        version: None,
        kind: None,
    }
}

fn object(props: Vec<(&str, K8sResourceSpec)>) -> K8sResourceSpec {
    let mut n = node("object");
    n.properties = props.into_iter().map(|(k, v)| (k.to_string(), v)).collect();
    n
}

fn array(items: K8sResourceSpec) -> K8sResourceSpec {
    let mut n = node("array");
    n.items = Some(Box::new(items));
    n
}

fn s(t: &str) -> JsonValue {
    JsonValue::Str(t.to_string())
}

fn pod_schema() -> K8sResourceSpec {
    let mut run_as_user = node("integer");
    run_as_user.format = Some("int64".to_string());
    let mut limits = node("string");
    limits.is_quant = true;
    let container = object(vec![
        ("name", node("string")),
        ("image", node("string")),
        ("securityContext", object(vec![("privileged", node("boolean")), ("runAsUser", run_as_user)])),
        ("resources", object(vec![("limits", limits)])),
    ]);
    let mut restart = node("string");
    restart._enum = vec![s("Always"), s("OnFailure"), s("Never")];
    object(vec![
        ("apiVersion", node("string")),
        ("kind", node("string")),
        ("metadata", object(vec![("name", node("string"))])),
        (
            "spec",
            object(vec![("containers", array(container)), ("hostNetwork", node("boolean")), ("restartPolicy", restart)]),
        ),
    ])
}

fn rule(path: &str) -> FieldConfig {
    FieldConfig {
        path: path.to_string(),
        values: None,
        regex_values: None,
        values_mode: None,
        required: false,
        minmax: None,
        remove: false,
        regex: false,
    }
}

fn config(fields: Vec<FieldConfig>) -> ConstraintConfig {
    ConstraintConfig { group: "".to_string(), version: "v1".to_string(), kind: "Pod".to_string(), fields }
}

fn pod_config() -> ConstraintConfig {
    let mut containers = rule("$.spec.containers");
    containers.minmax = Some((1, 3));
    let mut name = rule("$.spec.containers.name");
    name.required = true;
    let mut run_as_user = rule("$.spec.containers.securityContext.runAsUser");
    run_as_user.remove = true;
    let mut restart = rule("$.spec.restartPolicy");
    restart.values = Some(vec![s("Always")]);
    restart.values_mode = Some(ValuesMode::Override);
    config(vec![rule("$.spec.containers.securityContext"), containers, name, run_as_user, restart])
}

fn names(n: &K8sResourceSpec) -> Vec<String> {
    n.properties.iter().map(|(k, _)| k.clone()).collect()
}

fn child<'a>(n: &'a K8sResourceSpec, name: &str) -> &'a K8sResourceSpec {
    &n.properties.iter().find(|(k, _)| k == name).unwrap().1
}

#[test]
fn constraining_keeps_only_allowed_fields() {
    let spec = constrain_loaded(pod_config(), pod_schema()).ok().unwrap();
    assert_eq!(names(&spec), vec!["spec"]);
    let pod_spec = child(&spec, "spec");
    assert_eq!(names(pod_spec), vec!["containers", "restartPolicy"]);
    let containers = child(pod_spec, "containers");
    let item = containers.items.as_ref().unwrap();
    assert_eq!(names(item), vec!["name", "image", "securityContext", "resources"]);
    assert_eq!(names(child(item, "securityContext")), vec!["privileged"]);
}

#[test]
fn constraining_applies_rule_settings() {
    let spec = constrain_loaded(pod_config(), pod_schema()).ok().unwrap();
    let pod_spec = child(&spec, "spec");
    let containers = child(pod_spec, "containers");
    assert_eq!(containers.minmax, Some((1, 3)));
    assert_eq!(containers.items.as_ref().unwrap().required, vec!["name"]);
    assert_eq!(child(pod_spec, "restartPolicy")._enum, vec![s("Always")]);
}

#[test]
fn constraining_marks_the_root() {
    let spec = constrain_loaded(pod_config(), pod_schema()).ok().unwrap();
    assert_eq!(spec.gvk.as_deref(), Some(".v1.Pod"));
    assert_eq!(spec.group, None);
    assert_eq!(spec.version.as_deref(), Some("v1"));
    assert_eq!(spec.kind.as_deref(), Some("Pod"));
    let mut c = pod_config();
    c.group = "apps".to_string();
    let spec = constrain_loaded(c, pod_schema()).ok().unwrap();
    assert_eq!(spec.gvk.as_deref(), Some("apps.v1.Pod"));
    assert_eq!(spec.group.as_deref(), Some("apps"));
}

#[test]
fn values_are_added_in_add_mode() {
    let mut restart = rule("$.spec.restartPolicy");
    restart.values = Some(vec![s("Sometimes")]);
    restart.values_mode = Some(ValuesMode::Add);
    let spec = constrain_loaded(config(vec![restart]), pod_schema()).ok().unwrap();
    assert_eq!(
        child(child(&spec, "spec"), "restartPolicy")._enum,
        vec![s("Always"), s("OnFailure"), s("Never"), s("Sometimes")]
    );
}

#[test]
fn regex_rules_reach_matching_leaves() {
    let mut privileged = rule(".*securityContext\\.privileged");
    privileged.regex = true;
    privileged.values = Some(vec![JsonValue::Bool(true)]);
    privileged.required = true;
    let spec = constrain_loaded(config(vec![privileged]), pod_schema()).ok().unwrap();
    assert_eq!(names(&spec), vec!["spec"]);
    let item = child(child(&spec, "spec"), "containers").items.as_ref().unwrap();
    assert_eq!(names(item), vec!["securityContext"]);
    let sc = child(item, "securityContext");
    assert_eq!(names(sc), vec!["privileged"]);
    assert_eq!(sc.required, vec!["privileged"]);
    assert_eq!(child(sc, "privileged")._enum, vec![JsonValue::Bool(true)]);
}

#[test]
fn unknown_path_is_refused() {
    let r = constrain_loaded(config(vec![rule("$.spec.nothere")]), pod_schema());
    assert!(matches!(r, Err(LoadError::UnknownPath(p)) if p == "$.spec.nothere"));
}

#[test]
fn minmax_on_a_non_array_is_refused() {
    let mut host = rule("$.spec.hostNetwork");
    host.minmax = Some((1, 2));
    let r = constrain_loaded(config(vec![host]), pod_schema());
    assert!(matches!(r, Err(LoadError::Constrain(ConstrainError::MinmaxOnNonArray(p))) if p == "$.spec.hostNetwork"));
}

#[test]
fn values_on_an_enum_need_a_mode() {
    let mut restart = rule("$.spec.restartPolicy");
    restart.values = Some(vec![s("Always")]);
    let r = constrain_loaded(config(vec![restart]), pod_schema());
    assert!(matches!(r, Err(LoadError::Constrain(ConstrainError::MissingValuesMode(p))) if p == "$.spec.restartPolicy"));
}

#[test]
fn empty_version_and_kind_are_refused() {
    let mut c = pod_config();
    c.version = "".to_string();
    assert!(matches!(constrain_loaded(c, pod_schema()), Err(LoadError::EmptyVersion)));
    let mut c = pod_config();
    c.kind = "".to_string();
    assert!(matches!(prepare_config(c), Err(LoadError::EmptyKind)));
}

#[test]
fn bad_regular_expressions_are_refused() {
    let mut bad_path = rule("(");
    bad_path.regex = true;
    assert!(matches!(prepare_config(config(vec![bad_path])), Err(LoadError::InvalidRegex(p)) if p == "("));
    let mut bad_values = rule("$.spec.restartPolicy");
    bad_values.regex_values = Some(vec!["[a-".to_string()]);
    assert!(matches!(prepare_config(config(vec![bad_values])), Err(LoadError::InvalidRegex(p)) if p == "[a-"));
}

#[test]
fn plain_paths_are_normalized() {
    let mut regex_rule = rule("a..b");
    regex_rule.regex = true;
    let c = prepare_config(config(vec![rule("$..spec.containers."), regex_rule])).ok().unwrap();
    assert_eq!(c.fields[0].path, "$.spec.containers");
    assert_eq!(c.fields[1].path, "a..b");
    let spec = constrain_loaded(config(vec![rule("$..spec.containers.")]), pod_schema());
    assert!(spec.is_ok());
}

#[test]
fn unsound_schema_is_refused() {
    let broken = object(vec![("spec", node("string")), ("spec", node("string"))]);
    assert!(!check_schema(&broken));
    assert!(matches!(constrain_loaded(pod_config(), broken), Err(LoadError::MalformedSchema)));
    let dotted = object(vec![("a.b", node("string"))]);
    assert!(!check_schema(&dotted));
    assert!(check_schema(&pod_schema()));
}

#[test]
fn arrays_without_element_schema_can_be_narrowed() {
    let mut schema = pod_schema();
    schema.properties.push(("volumes".to_string(), node("array")));
    assert!(check_schema(&schema));
    let spec = constrain_loaded(pod_config(), schema).ok().unwrap();
    assert_eq!(names(&spec), vec!["spec"]);
}

#[test]
fn config_language_from_extension() {
    assert!(matches!(config_format("c.yaml"), Ok(ConfigFormat::Yaml)));
    assert!(matches!(config_format("dir/c.json"), Ok(ConfigFormat::Json)));
    assert!(matches!(config_format("c"), Err(LoadError::NoExtension(p)) if p == "c"));
    assert!(matches!(config_format("c.toml"), Err(LoadError::UnsupportedFormat(p)) if p == "c.toml"));
}

#[test]
fn narrowing_records_each_rule_that_takes_effect_once() {
    let mut spec = object(vec![("a", node("string")), ("b", node("string"))]);
    spec.required = vec!["b".to_string()];
    let mut covered: Vec<String> = Vec::new();
    assert!(constrain_spec(&config(vec![rule("$.a")]), &mut spec, "$", &mut covered).is_ok());
    assert_eq!(names(&spec), vec!["a"]);
    assert!(spec.required.is_empty());
    assert_eq!(child(&spec, "a")._type, "string");
    assert_eq!(covered, vec!["$.a".to_string()]);
}

#[test]
fn removing_rules_are_recorded_for_each_child_they_forbid() {
    let spec0 = object(vec![("a", node("string")), ("b", node("string"))]);
    let mut spec = spec0;
    let mut remove = rule("$.a");
    remove.remove = true;
    let mut covered: Vec<String> = Vec::new();
    assert!(constrain_spec(&config(vec![rule("$.a"), rule("$.b"), remove]), &mut spec, "$", &mut covered).is_ok());
    assert_eq!(names(&spec), vec!["b"]);
    assert_eq!(covered, vec!["$.a".to_string(), "$.b".to_string()]);
}
