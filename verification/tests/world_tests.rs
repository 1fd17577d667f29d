use typstudio_core::config::{config_from_read, ensure_main, ProjectConfig};
use typstudio_core::error::{FileError, ProjectConfigError, WorldError};
use typstudio_core::package::PackageSpec;
use typstudio_core::world::{identity_for, identity_in_package, DiskRead, ProjectWorld};

fn disk_ok(text: &str) -> DiskRead {
    DiskRead { text: Ok(text.to_string()), bytes: Ok(text.as_bytes().to_vec()) }
}

fn disk_absent() -> DiskRead {
    DiskRead { text: Err(FileError::NotFound), bytes: Err(FileError::NotFound) }
}

#[test]
fn empty_root_without_config_defaults_main_and_first_read_is_not_found() {
    // With no configuration file the default main is configured, and
    // the first main-source read finds no file and reports it.
    let mut world = ProjectWorld::new("/proj".to_string());
    let config = config_from_read(Err(ProjectConfigError::IO));
    assert_eq!(config.main.as_deref(), Some("/main.typ"));
    config.apply_main(&mut world).unwrap();
    assert!(world.is_main_set());
    let r = world.main_source(Some(disk_absent()));
    assert!(matches!(r, Err(WorldError::File(FileError::NotFound))));
}

#[test]
fn explicit_write_then_read_needs_no_disk() {
    // After the slot is computed, an explicit write of "Hello" is
    // served from the cache — the read passes no disk access.
    let mut world = ProjectWorld::new("/proj".to_string());
    world.set_main_path("/main.typ").unwrap();
    // First read materializes (and fails), computing the text result.
    let _ = world.main_source(Some(disk_absent()));
    world
        .slot_update("/main.typ", Some("Hello".to_string()), None)
        .unwrap();
    let r = world.main_source(None).unwrap();
    assert_eq!(r, "Hello");
}

#[test]
fn unpopulated_slot_materializes_lazily_from_disk() {
    // The file appeared on disk while the slot was unpopulated; the
    // first read materializes from the caller's single read.
    let mut world = ProjectWorld::new("/proj".to_string());
    let id = identity_for("/main.typ").unwrap();
    let r = world.source(&id, Some(disk_ok("World"))).unwrap();
    assert_eq!(r, "World");
    // And it is cached: a second read without disk access serves it.
    let again = world.source(&id, None).unwrap();
    assert_eq!(again, "World");
}

#[test]
fn escaping_path_is_denied_and_creates_no_slot() {
    // An update addressed above the root is refused outright.
    let mut world = ProjectWorld::new("/proj".to_string());
    let r = world.slot_update("../../etc/passwd", Some("x".to_string()), None);
    assert!(matches!(r, Err(FileError::AccessDenied)));
    // No slot came to be: no identity can even name the escape.
    assert!(matches!(identity_for("../../etc/passwd"), Err(FileError::AccessDenied)));
}

#[test]
fn two_resolutions_of_one_identity_share_one_slot() {
    // Two spellings of one normalized identity: an update through one is
    // visible through the other.
    let mut world = ProjectWorld::new("/proj".to_string());
    let id_a = identity_for("/a.typ").unwrap();
    let id_b = identity_for("a.typ").unwrap();
    assert!(id_a.same_identity(&id_b));
    // Materialize through the first handle, then overwrite through an
    // update addressed by the second spelling.
    let first = world.source(&id_a, Some(disk_ok("one"))).unwrap();
    assert_eq!(first, "one");
    world.slot_update("a.typ", Some("two".to_string()), None).unwrap();
    let seen = world.source(&id_b, None).unwrap();
    assert_eq!(seen, "two");
    let seen_a = world.source(&id_a, None).unwrap();
    assert_eq!(seen_a, "two");
}

#[test]
fn failed_slot_updated_with_content_becomes_and_stays_successful() {
    // A slot whose first read failed, later updated with explicit
    // content, serves that content until the next update.
    let mut world = ProjectWorld::new("/proj".to_string());
    let id = identity_for("/f.typ").unwrap();
    let r = world.source(&id, Some(disk_absent()));
    assert!(matches!(r, Err(FileError::NotFound)));
    // The failure is cached: a later read returns it without disk access.
    let r2 = world.source(&id, None);
    assert!(matches!(r2, Err(FileError::NotFound)));
    world.slot_update("/f.typ", Some("back".to_string()), None).unwrap();
    assert_eq!(world.source(&id, None).unwrap(), "back");
    assert_eq!(world.source(&id, None).unwrap(), "back");
}

#[test]
fn cleared_main_blocks_reads_with_typed_error() {
    // setMain(none) followed by a main-source read is blocked, never a
    // panic.
    let mut world = ProjectWorld::new("/proj".to_string());
    world.set_main_path("/main.typ").unwrap();
    world.set_main(None);
    assert!(!world.is_main_set());
    let r = world.main_source(None);
    assert!(matches!(r, Err(WorldError::MainNotSet)));
}

#[test]
fn absent_config_main_clears_and_reports() {
    let mut world = ProjectWorld::new("/proj".to_string());
    world.set_main_path("/main.typ").unwrap();
    let config = ProjectConfig { main: None };
    let r = config.apply_main(&mut world);
    assert!(matches!(r, Err(FileError::NotFound)));
    assert!(!world.is_main_set());
}

#[test]
fn compile_gate_reapplies_configuration_or_blocks() {
    // An unset main is re-resolved from the configuration.
    let mut world = ProjectWorld::new("/proj".to_string());
    let config = ProjectConfig { main: Some("/main.typ".to_string()) };
    assert!(ensure_main(&mut world, &config).is_ok());
    assert!(world.is_main_set());
    // A configuration without a main blocks with the typed signal.
    let mut world = ProjectWorld::new("/proj".to_string());
    let empty = ProjectConfig { main: None };
    let r = ensure_main(&mut world, &empty);
    assert!(matches!(r, Err(WorldError::MainNotSet)));
    assert!(!world.is_main_set());
    // An already-configured main passes untouched.
    let mut world = ProjectWorld::new("/proj".to_string());
    world.set_main_path("/other.typ").unwrap();
    assert!(ensure_main(&mut world, &empty).is_ok());
    assert!(world.is_main_set());
}

#[test]
fn update_with_failed_reload_keeps_stale_value() {
    // Stale-but-present beats absent: a contentless update whose read
    // failed reports the failure and leaves the computed value standing.
    let mut world = ProjectWorld::new("/proj".to_string());
    let id = identity_for("/s.typ").unwrap();
    world.source(&id, Some(disk_ok("v1"))).unwrap();
    let r = world.slot_update("/s.typ", None, Some(disk_absent()));
    assert!(matches!(r, Err(FileError::NotFound)));
    assert_eq!(world.source(&id, None).unwrap(), "v1");
}

#[test]
fn contentless_update_rereads_computed_slot() {
    let mut world = ProjectWorld::new("/proj".to_string());
    let id = identity_for("/s.typ").unwrap();
    world.source(&id, Some(disk_ok("v1"))).unwrap();
    world.slot_update("/s.typ", None, Some(disk_ok("v2"))).unwrap();
    assert_eq!(world.source(&id, None).unwrap(), "v2");
}

#[test]
fn text_and_byte_results_are_independent() {
    let mut world = ProjectWorld::new("/proj".to_string());
    let id = identity_for("/b.bin").unwrap();
    let bytes = world.file(&id, Some(disk_ok("raw"))).unwrap();
    assert_eq!(bytes, b"raw".to_vec());
    // The text form is still unpopulated and materializes on its own.
    let target = world.text_read_target(&id).unwrap();
    assert_eq!(target.as_deref(), Some("/proj/b.bin"));
    let text = world.source(&id, Some(disk_ok("later"))).unwrap();
    assert_eq!(text, "later");
    // The byte form kept its own cached value.
    assert_eq!(world.file(&id, None).unwrap(), b"raw".to_vec());
}

#[test]
fn read_targets_report_cached_results() {
    let mut world = ProjectWorld::new("/proj".to_string());
    let id = identity_for("/t.typ").unwrap();
    assert_eq!(world.text_read_target(&id).unwrap().as_deref(), Some("/proj/t.typ"));
    world.source(&id, Some(disk_ok("x"))).unwrap();
    assert_eq!(world.text_read_target(&id).unwrap(), None);
    // The byte form is still uncomputed.
    assert_eq!(world.bytes_read_target(&id).unwrap().as_deref(), Some("/proj/t.typ"));
}

#[test]
fn missing_package_is_not_found_and_creates_no_slot() {
    let spec = PackageSpec {
        namespace: "no-such-namespace-zz".to_string(),
        name: "no-such-package-zz".to_string(),
        version: "0.0.0".to_string(),
    };
    let id = identity_in_package(spec, "/lib.typ").unwrap();
    let mut world = ProjectWorld::new("/proj".to_string());
    let r = world.source(&id, Some(disk_ok("x")));
    assert!(matches!(r, Err(FileError::NotFound)));
}
