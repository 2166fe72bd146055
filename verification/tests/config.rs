use mpflow_plotting::config::{extract_mesh_path, extract_ports_path, join, path_spec, PathSpec};
use rustc_serialize::json::Json;

fn json(text: &str) -> Json {
    Json::from_str(text).unwrap()
}

#[test]
fn mesh_path_direct_string() {
    let config = json(r#"{"model":{"mesh":"foo"}}"#);
    assert_eq!(extract_mesh_path(&config), Some("foo".to_string()));
}

#[test]
fn mesh_path_nested_object() {
    let config = json(r#"{"model":{"mesh":{"path":"bar"}}}"#);
    assert_eq!(extract_mesh_path(&config), Some("bar".to_string()));
}

#[test]
fn mesh_path_defaults_when_model_is_empty() {
    let config = json(r#"{"model":{}}"#);
    assert_eq!(extract_mesh_path(&config), Some("mesh".to_string()));
}

#[test]
fn mesh_path_fails_without_model() {
    let config = json("{}");
    assert_eq!(extract_mesh_path(&config), None);
}

#[test]
fn mesh_path_fails_when_model_is_no_object() {
    assert_eq!(extract_mesh_path(&json(r#"{"model":"mesh"}"#)), None);
    assert_eq!(extract_mesh_path(&json(r#"{"model":[1,2]}"#)), None);
    assert_eq!(extract_mesh_path(&json(r#"{"model":null}"#)), None);
}

#[test]
fn mesh_path_fails_when_config_is_no_object() {
    assert_eq!(extract_mesh_path(&json(r#""model""#)), None);
    assert_eq!(extract_mesh_path(&json("[1, 2, 3]")), None);
    assert_eq!(extract_mesh_path(&json("12")), None);
}

#[test]
fn mesh_path_defaults_when_nested_path_is_missing() {
    let config = json(r#"{"model":{"mesh":{"height":0.1}}}"#);
    assert_eq!(extract_mesh_path(&config), Some("mesh".to_string()));
}

#[test]
fn mesh_path_defaults_when_nested_path_is_no_string() {
    let config = json(r#"{"model":{"mesh":{"path":7}}}"#);
    assert_eq!(extract_mesh_path(&config), Some("mesh".to_string()));
}

#[test]
fn mesh_path_defaults_when_mesh_has_wrong_type() {
    assert_eq!(extract_mesh_path(&json(r#"{"model":{"mesh":3}}"#)), Some("mesh".to_string()));
    assert_eq!(extract_mesh_path(&json(r#"{"model":{"mesh":["a"]}}"#)), Some("mesh".to_string()));
    assert_eq!(extract_mesh_path(&json(r#"{"model":{"mesh":null}}"#)), Some("mesh".to_string()));
}

#[test]
fn mesh_path_ignores_other_entries() {
    let config = json(r#"{"solver":{"mesh":"no"},"model":{"ports":"p","mesh":"yes"}}"#);
    assert_eq!(extract_mesh_path(&config), Some("yes".to_string()));
}

#[test]
fn ports_path_nested_object() {
    let config = json(r#"{"model":{"ports":{"edges":"p.txt"}}}"#);
    assert_eq!(extract_ports_path(&config), Some("p.txt".to_string()));
}

#[test]
fn ports_path_direct_string() {
    let config = json(r#"{"model":{"ports":"ports.txt"}}"#);
    assert_eq!(extract_ports_path(&config), Some("ports.txt".to_string()));
}

#[test]
fn ports_path_has_no_default() {
    assert_eq!(extract_ports_path(&json(r#"{"model":{}}"#)), None);
}

#[test]
fn ports_path_fails_without_model() {
    assert_eq!(extract_ports_path(&json("{}")), None);
    assert_eq!(extract_ports_path(&json(r#"{"model":"x"}"#)), None);
    assert_eq!(extract_ports_path(&json("null")), None);
}

#[test]
fn ports_path_fails_on_other_shapes() {
    assert_eq!(extract_ports_path(&json(r#"{"model":{"ports":5}}"#)), None);
    assert_eq!(extract_ports_path(&json(r#"{"model":{"ports":{"path":"p.txt"}}}"#)), None);
    assert_eq!(extract_ports_path(&json(r#"{"model":{"ports":{"edges":1.5}}}"#)), None);
    assert_eq!(extract_ports_path(&json(r#"{"model":{"ports":["p.txt"]}}"#)), None);
}

#[test]
fn path_spec_tells_the_shapes_apart() {
    let model = json(r#"{"a":"x","b":{"k":"y"},"c":{"other":"z"},"d":4,"e":{"k":false}}"#);
    assert!(matches!(path_spec(&model, "a", "k"), PathSpec::Direct(p) if p == "x"));
    assert!(matches!(path_spec(&model, "b", "k"), PathSpec::Nested(Some(p)) if p == "y"));
    assert!(matches!(path_spec(&model, "c", "k"), PathSpec::Nested(None)));
    assert!(matches!(path_spec(&model, "d", "k"), PathSpec::Absent));
    assert!(matches!(path_spec(&model, "e", "k"), PathSpec::Nested(None)));
    assert!(matches!(path_spec(&model, "f", "k"), PathSpec::Absent));
}

#[test]
fn path_spec_of_a_value_that_is_no_object() {
    assert!(matches!(path_spec(&json("3"), "a", "k"), PathSpec::Absent));
    assert!(matches!(path_spec(&json(r#""a""#), "a", "k"), PathSpec::Absent));
}

#[test]
fn resolve_gives_the_path_of_each_shape() {
    assert_eq!(PathSpec::Direct("a".to_string()).resolve(), Some("a".to_string()));
    assert_eq!(PathSpec::Nested(Some("b".to_string())).resolve(), Some("b".to_string()));
    assert_eq!(PathSpec::Nested(None).resolve(), None);
    assert_eq!(PathSpec::Absent.resolve(), None);
}

#[test]
fn resolve_or_falls_back_only_without_a_path() {
    assert_eq!(PathSpec::Direct("a".to_string()).resolve_or("mesh"), "a");
    assert_eq!(PathSpec::Nested(Some("b".to_string())).resolve_or("mesh"), "b");
    assert_eq!(PathSpec::Nested(None).resolve_or("mesh"), "mesh");
    assert_eq!(PathSpec::Absent.resolve_or("mesh"), "mesh");
}

#[test]
fn join_puts_a_slash_between_directory_and_name() {
    assert_eq!(join("models/a", "nodes.txt"), "models/a/nodes.txt");
    assert_eq!(join(&join("/data", "mesh"), "elements.txt"), "/data/mesh/elements.txt");
    assert_eq!(join("", "ports.txt"), "/ports.txt");
    assert_eq!(join("dir", ""), "dir/");
}
