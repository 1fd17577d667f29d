use typstudio_core::clock::{today, MAX_TODAY_OFFSET_HOURS};
use typstudio_core::error::{Error, FileError, PackageError};
use typstudio_core::model::{sort_file_items, FileItem, FileType, ProjectCache};
use typstudio_core::package::{package_subpath, prepare_package, PackageSpec};
use typstudio_core::text::{byte_offset_to_char_offset, char_offset_to_byte_offset};

fn item(name: &str, t: FileType) -> FileItem {
    FileItem { name: name.to_string(), file_type: t }
}

#[test]
fn listing_sorts_directories_first_then_names() {
    let v = vec![
        item("zeta.typ", FileType::File),
        item("assets", FileType::Directory),
        item("alpha.typ", FileType::File),
        item("build", FileType::Directory),
    ];
    let sorted = sort_file_items(v);
    let names: Vec<&str> = sorted.iter().map(|i| i.name.as_str()).collect();
    assert_eq!(names, vec!["assets", "build", "alpha.typ", "zeta.typ"]);
    assert_eq!(sorted[0].file_type, FileType::Directory);
    assert_eq!(sorted[1].file_type, FileType::Directory);
    assert_eq!(sorted[2].file_type, FileType::File);
}

#[test]
fn listing_sort_keeps_duplicates() {
    let v = vec![item("a", FileType::File), item("a", FileType::File)];
    let sorted = sort_file_items(v);
    assert_eq!(sorted.len(), 2);
}

#[test]
fn error_messages() {
    assert_eq!(Error::Unknown.message(), "unknown error");
    assert_eq!(Error::UnknownProject.message(), "unknown project");
    assert_eq!(Error::IO.message(), "io error occurred");
    assert_eq!(Error::TypstFile(FileError::NotFound).message(), "typst file error occurred");
    assert_eq!(
        Error::UnrelatedPath.message(),
        "the provided path does not belong to the project"
    );
}

#[test]
fn fresh_cache_holds_no_artifact() {
    let c: ProjectCache = Default::default();
    assert!(c.document.is_none());
}

#[test]
fn today_local_is_a_calendar_date() {
    let d = today(None).unwrap();
    assert!((1..=12).contains(&d.month));
    assert!((1..=31).contains(&d.day));
}

#[test]
fn today_with_zero_offset_is_a_calendar_date() {
    let d = today(Some(0)).unwrap();
    assert!((1..=12).contains(&d.month));
    assert!((1..=31).contains(&d.day));
}

#[test]
fn today_rejects_out_of_range_offsets() {
    assert!(today(Some(MAX_TODAY_OFFSET_HOURS + 1)).is_none());
    assert!(today(Some(i64::MAX)).is_none());
    assert!(today(Some(i64::MIN)).is_none());
    assert!(today(Some(-24)).is_some());
}

#[test]
fn package_subpath_is_fixed() {
    let spec = PackageSpec {
        namespace: "preview".to_string(),
        name: "example".to_string(),
        version: "0.1.0".to_string(),
    };
    assert_eq!(package_subpath(&spec), "typst/packages/preview/example/0.1.0");
}

#[test]
fn missing_package_lookup_reports_not_found() {
    let spec = PackageSpec {
        namespace: "no-such-namespace-zz".to_string(),
        name: "no-such-package-zz".to_string(),
        version: "0.0.0".to_string(),
    };
    assert!(matches!(prepare_package(&spec), Err(PackageError::NotFound)));
}

#[test]
fn char_offsets_convert_to_byte_offsets() {
    assert_eq!(char_offset_to_byte_offset("abc", 0), 0);
    assert_eq!(char_offset_to_byte_offset("abc", 2), 2);
    // 'h' is one byte, 'e' with an accent is two.
    assert_eq!(char_offset_to_byte_offset("h\u{e9}llo", 2), 3);
    // A four-byte character.
    assert_eq!(char_offset_to_byte_offset("a\u{1F600}b", 2), 5);
    // An offset beyond the text clamps to its end.
    assert_eq!(char_offset_to_byte_offset("abc", 10), 3);
}

#[test]
fn byte_offsets_convert_back_on_boundaries_only() {
    assert_eq!(byte_offset_to_char_offset("h\u{e9}llo", 0), Some(0));
    assert_eq!(byte_offset_to_char_offset("h\u{e9}llo", 1), Some(1));
    // Inside the two-byte character: no boundary.
    assert_eq!(byte_offset_to_char_offset("h\u{e9}llo", 2), None);
    assert_eq!(byte_offset_to_char_offset("h\u{e9}llo", 3), Some(2));
    // The end of the text is a boundary; beyond it is not.
    assert_eq!(byte_offset_to_char_offset("h\u{e9}llo", 6), Some(5));
    assert_eq!(byte_offset_to_char_offset("h\u{e9}llo", 7), None);
}
