use mds_lint::error::MdsError;
use mds_lint::options::{reject_unknown_json_keys, reject_unknown_keys, VarsError};

#[test]
fn test_reject_unknown_empty_map() {
    let map: serde_json::Map<String, serde_json::Value> = Default::default();
    assert!(reject_unknown_json_keys(&map, &["basePath", "vars"]).is_ok());
}

#[test]
fn test_reject_unknown_all_known() {
    let map: serde_json::Map<_, _> = serde_json::from_str(r#"{"basePath": ".", "vars": {}}"#).unwrap();
    assert!(reject_unknown_json_keys(&map, &["basePath", "vars"]).is_ok());
}

#[test]
fn test_reject_unknown_single_key() {
    let map: serde_json::Map<_, _> = serde_json::from_str(r#"{"typo": "x"}"#).unwrap();
    let err = reject_unknown_json_keys(&map, &["basePath", "vars"]).unwrap_err();
    assert!(err.contains("unknown option key"), "single-key message should say 'unknown option key': {err}");
    assert!(err.contains("\"typo\""), "should name the unknown key: {err}");
    assert!(err.contains("basePath") && err.contains("vars"), "should list recognised keys: {err}");
    assert!(!err.contains("keys:"), "should use singular form for one key: {err}");
}

#[test]
fn test_reject_unknown_multiple_keys() {
    let map: serde_json::Map<_, _> = serde_json::from_str(r#"{"foo": 1, "bar": 2}"#).unwrap();
    let err = reject_unknown_json_keys(&map, &["basePath", "vars"]).unwrap_err();
    assert!(err.contains("unknown option keys:"), "multiple-key message should say 'unknown option keys:': {err}");
    assert!(err.contains("\"foo\""), "should name 'foo': {err}");
    assert!(err.contains("\"bar\""), "should name 'bar': {err}");
}

#[test]
fn test_vars_error_display() {
    let invalid_type = VarsError::InvalidType("bad type".to_string());
    assert_eq!(invalid_type.to_display_string(), "bad type");
    let mds_err = MdsError::resource_limit("depth exceeded".to_string());
    let conversion = VarsError::Conversion(mds_err);
    let display = conversion.to_display_string();
    assert!(display.contains("vars conversion error"), "Conversion display should prefix message: {display}");
}

#[test]
fn test_vars_error_source() {
    let invalid_type = VarsError::InvalidType("bad".to_string());
    assert!(invalid_type.source().is_none(), "InvalidType has no source");
    let mds_err = MdsError::resource_limit("depth exceeded".to_string());
    let conversion = VarsError::Conversion(mds_err);
    assert!(conversion.source().is_some(), "Conversion should have a source");
}

#[test]
fn reject_unknown_keys_exact_messages() {
    let known = vec!["basePath", "vars"];
    assert_eq!(reject_unknown_keys(&vec!["vars".to_string()], &known), Ok(()));
    assert_eq!(
        reject_unknown_keys(&vec!["x".to_string(), "vars".to_string()], &known),
        Err("unknown option key \"x\"; recognised keys are: basePath, vars".to_string())
    );
    assert_eq!(
        reject_unknown_keys(&vec!["x".to_string(), "y".to_string()], &known),
        Err("unknown option keys: \"x\", \"y\"; recognised keys are: basePath, vars".to_string())
    );
}

#[test]
fn conversion_display_includes_inner_error() {
    let conversion = VarsError::Conversion(MdsError::resource_limit("depth exceeded".to_string()));
    assert_eq!(conversion.to_display_string(), "vars conversion error: resource limit exceeded: depth exceeded");
}
