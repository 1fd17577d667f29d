use typstudio_core::config::{config_from_field, config_from_read, is_project_config_file,
    read_main_field, MainField, ProjectConfig};
use typstudio_core::error::ProjectConfigError;

#[test]
fn default_config_points_at_main_typ() {
    let c: ProjectConfig = Default::default();
    assert_eq!(c.main.as_deref(), Some("/main.typ"));
}

#[test]
fn string_main_is_extracted() {
    // Runs the real JSON parser behind the extraction.
    let f = read_main_field("{\"main\": \"/chapter.typ\"}");
    assert!(matches!(f, MainField::Path(ref p) if p == "/chapter.typ"));
    let c = config_from_field(f);
    assert_eq!(c.main.as_deref(), Some("/chapter.typ"));
}

#[test]
fn missing_main_is_absent() {
    let f = read_main_field("{}");
    assert!(matches!(f, MainField::Absent));
    assert_eq!(config_from_field(f).main, None);
}

#[test]
fn null_main_is_absent() {
    let f = read_main_field("{\"main\": null}");
    assert!(matches!(f, MainField::Absent));
}

#[test]
fn malformed_document_falls_back_to_default() {
    let f = read_main_field("{not json");
    assert!(matches!(f, MainField::Unparseable));
    assert_eq!(config_from_field(f).main.as_deref(), Some("/main.typ"));
}

#[test]
fn wrong_typed_main_falls_back_to_default() {
    let f = read_main_field("{\"main\": 3}");
    assert!(matches!(f, MainField::Unparseable));
    assert_eq!(config_from_field(f).main.as_deref(), Some("/main.typ"));
}

#[test]
fn unreadable_file_falls_back_to_default() {
    let c = config_from_read(Err(ProjectConfigError::IO));
    assert_eq!(c.main.as_deref(), Some("/main.typ"));
}

#[test]
fn readable_document_is_parsed() {
    let c = config_from_read(Ok("{\"main\": \"/m.typ\"}".to_string()));
    assert_eq!(c.main.as_deref(), Some("/m.typ"));
}

#[test]
fn config_file_location_is_fixed() {
    assert!(is_project_config_file(".typstudio/project.json"));
    assert!(!is_project_config_file("project.json"));
    assert!(!is_project_config_file(".typstudio/project.jsonx"));
}
