use typstudio_core::error::FileError;
use typstudio_core::watch::{classify_event, parent_dir, path_contained_in, project_action,
    relative_path, FsEventKind, HandleKind, ProjectFsAction};
use typstudio_core::model::{sort_file_items, FileItem, FileType};
use typstudio_core::world::{identity_for, DiskRead, ProjectWorld};

#[test]
fn parent_of_nested_path() {
    assert_eq!(parent_dir("/proj/a/b.typ").as_deref(), Some("/proj/a"));
    assert_eq!(parent_dir("/a.typ").as_deref(), Some(""));
    assert_eq!(parent_dir("name"), None);
}

#[test]
fn create_and_remove_refresh_the_parent() {
    let c = classify_event(FsEventKind::Create, "/proj/a.typ").unwrap();
    assert_eq!(c.0, "/proj");
    assert_eq!(c.1, HandleKind::Refresh);
    let r = classify_event(FsEventKind::Remove, "/proj/dir/b.typ").unwrap();
    assert_eq!(r.0, "/proj/dir");
    assert_eq!(r.1, HandleKind::Refresh);
    let m = classify_event(FsEventKind::Rename, "/proj/a.typ").unwrap();
    assert_eq!(m.1, HandleKind::Refresh);
}

#[test]
fn data_change_reloads_the_path_itself() {
    let c = classify_event(FsEventKind::DataChange, "/proj/a.typ").unwrap();
    assert_eq!(c.0, "/proj/a.typ");
    assert_eq!(c.1, HandleKind::Reload);
}

#[test]
fn other_events_are_dropped() {
    assert!(classify_event(FsEventKind::Other, "/proj/a.typ").is_none());
}

#[test]
fn containment_respects_component_boundaries() {
    assert!(path_contained_in("/proj", "/proj/a.typ"));
    assert!(path_contained_in("/proj", "/proj"));
    assert!(!path_contained_in("/proj", "/project/a.typ"));
    assert!(!path_contained_in("/proj", "/other/a.typ"));
    assert_eq!(relative_path("/proj", "/proj/a/b.typ"), "a/b.typ");
    assert_eq!(relative_path("/proj", "/proj"), "");
}

#[test]
fn create_then_modify_refreshes_then_reloads() {
    // A create followed by a data-modify of the same file, for a
    // project rooted above it: a refresh of the parent, then a reload.
    let root = "/proj";
    let file = "/proj/a.typ";

    let (target, kind) = classify_event(FsEventKind::Create, file).unwrap();
    let first = project_action(root, &target, kind);
    assert!(matches!(first, ProjectFsAction::RefreshDir(ref p) if p == ""));

    let (target, kind) = classify_event(FsEventKind::DataChange, file).unwrap();
    let second = project_action(root, &target, kind);
    let vpath = match second {
        ProjectFsAction::ReloadSlot(p) => p,
        other => panic!("expected a slot reload, got {:?}", other),
    };
    assert_eq!(vpath, "/a.typ");

    // The reload invalidates the slot: a contentless update forces the
    // next read to materialize from disk again.
    let mut world = ProjectWorld::new(root.to_string());
    let id = identity_for(&vpath).unwrap();
    let old = world
        .source(&id, Some(DiskRead { text: Ok("old".to_string()), bytes: Ok(b"old".to_vec()) }))
        .unwrap();
    assert_eq!(old, "old");
    world
        .slot_update(
            &vpath,
            None,
            Some(DiskRead { text: Ok("new".to_string()), bytes: Ok(b"new".to_vec()) }),
        )
        .unwrap();
    assert_eq!(world.source(&id, None).unwrap(), "new");
}

#[test]
fn config_file_modification_reloads_configuration() {
    let act = project_action("/proj", "/proj/.typstudio/project.json", HandleKind::Reload);
    assert!(matches!(act, ProjectFsAction::ReloadConfig));
}

#[test]
fn out_of_root_changes_are_ignored() {
    let act = project_action("/proj", "/elsewhere/a.typ", HandleKind::Reload);
    assert!(matches!(act, ProjectFsAction::Ignore));
}

#[test]
fn ignored_paths_create_no_slot() {
    // An out-of-root path never reaches the world; and an escape through
    // the update entry is refused.
    let mut world = ProjectWorld::new("/proj".to_string());
    let r = world.slot_update("/../x", None, Some(DiskRead {
        text: Err(FileError::NotFound),
        bytes: Err(FileError::NotFound),
    }));
    assert!(matches!(r, Err(FileError::AccessDenied)));
}

#[test]
fn parent_of_root_is_the_empty_path() {
    assert_eq!(parent_dir("/").as_deref(), Some(""));
}

#[test]
fn mixed_types_sort_by_type_before_name() {
    let v = vec![
        FileItem { name: "a".to_string(), file_type: FileType::File },
        FileItem { name: "a".to_string(), file_type: FileType::Directory },
    ];
    let sorted = sort_file_items(v);
    assert_eq!(sorted[0].file_type, FileType::Directory);
    assert_eq!(sorted[1].file_type, FileType::File);
}
