use typstudio_core::fonts::{collection_font_count, font_files_of_listing, has_font_extension,
    lex_le_exec, sort_paths, FontSearcher};

#[test]
fn lexicographic_compare() {
    assert!(lex_le_exec("a", "b"));
    assert!(!lex_le_exec("b", "a"));
    assert!(lex_le_exec("a", "a"));
    assert!(lex_le_exec("a", "ab"));
    assert!(!lex_le_exec("ab", "a"));
    assert!(lex_le_exec("", "a"));
}

#[test]
fn sort_orders_paths() {
    let v = vec!["c.ttf".to_string(), "a.ttf".to_string(), "b.ttf".to_string()];
    let sorted = sort_paths(v);
    assert_eq!(sorted, vec!["a.ttf".to_string(), "b.ttf".to_string(), "c.ttf".to_string()]);
}

#[test]
fn sort_is_deterministic_across_enumeration_orders() {
    // Identical contents, enumerated differently, yield one ordering —
    // and duplicates survive, since the union is not deduplicated.
    let one = vec!["b".to_string(), "a".to_string(), "a".to_string()];
    let other = vec!["a".to_string(), "a".to_string(), "b".to_string()];
    assert_eq!(sort_paths(one), sort_paths(other));
}

#[test]
fn recognized_font_extensions() {
    assert!(has_font_extension("/d/x.ttf"));
    assert!(has_font_extension("/d/x.OTF"));
    assert!(has_font_extension("/d/x.ttc"));
    assert!(has_font_extension("/d/x.OTC"));
    assert!(!has_font_extension("/d/x.txt"));
    assert!(!has_font_extension("/d/x.ttf.bak"));
    assert!(!has_font_extension("ttf"));
    assert!(!has_font_extension(""));
}

#[test]
fn collection_header_declares_count() {
    // A collection: 'ttcf', version, then the count big-endian.
    let header = vec![0x74, 0x74, 0x63, 0x66, 0x00, 0x01, 0x00, 0x00, 0x00, 0x00, 0x00, 0x03];
    assert_eq!(collection_font_count(&header), 3);
}

#[test]
fn single_font_containers_count_one() {
    // A plain TrueType header.
    let header = vec![0x00, 0x01, 0x00, 0x00, 0x00, 0x0c, 0x00, 0x80, 0x00, 0x03, 0x00, 0x10];
    assert_eq!(collection_font_count(&header), 1);
    // Too short to be a collection header.
    assert_eq!(collection_font_count(&vec![0x74, 0x74, 0x63, 0x66]), 1);
}

#[test]
fn registered_records_have_stable_positional_indices() {
    let mut searcher = FontSearcher::new();
    searcher.register_file(&"/f/a.ttc".to_string(), 2);
    searcher.register_file(&"/f/b.ttf".to_string(), 1);
    assert_eq!(searcher.len(), 3);
    assert_eq!(searcher.record_at(0), ("/f/a.ttc".to_string(), 0));
    assert_eq!(searcher.record_at(1), ("/f/a.ttc".to_string(), 1));
    assert_eq!(searcher.record_at(2), ("/f/b.ttf".to_string(), 0));
}

#[test]
fn font_payload_loads_once_and_is_cached() {
    let mut searcher = FontSearcher::new();
    searcher.register_file(&"/f/a.ttf".to_string(), 1);
    let first = searcher.font_data(0, Some(Some(vec![1, 2, 3])));
    assert_eq!(first, Some(vec![1, 2, 3]));
    // Cached thereafter: no payload handed in, same answer.
    let second = searcher.font_data(0, None);
    assert_eq!(second, Some(vec![1, 2, 3]));
}

#[test]
fn failed_font_load_is_absent_without_invalidating_the_rest() {
    let mut searcher = FontSearcher::new();
    searcher.register_file(&"/f/a.ttc".to_string(), 2);
    assert_eq!(searcher.font_data(0, Some(None)), None);
    // The failure is cached as absent.
    assert_eq!(searcher.font_data(0, None), None);
    // The sibling record still loads.
    assert_eq!(searcher.font_data(1, Some(Some(vec![9]))), Some(vec![9]));
    // And the records never moved.
    assert_eq!(searcher.record_at(0).1, 0);
    assert_eq!(searcher.record_at(1).1, 1);
}

#[test]
fn listing_keeps_exactly_the_recognized_files() {
    // Completeness and soundness of the filter: every recognized name of
    // the listing survives, as often as listed, and nothing else does.
    let listing = vec![
        "/d/b.ttf".to_string(),
        "/d/readme.txt".to_string(),
        "/d/a.OTC".to_string(),
        "/d/b.ttf".to_string(),
        "/d".to_string(),
        "/d/c.woff".to_string(),
    ];
    let kept = font_files_of_listing(&listing);
    assert_eq!(
        kept,
        vec!["/d/a.OTC".to_string(), "/d/b.ttf".to_string(), "/d/b.ttf".to_string()]
    );
}

#[test]
fn empty_listing_keeps_nothing() {
    let kept = font_files_of_listing(&Vec::new());
    assert!(kept.is_empty());
}
