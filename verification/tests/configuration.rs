use file_search::cache::FileCache;
use file_search::config::AliasRecord;
use file_search::file_type::FileSearchProcessorError;

fn record(alias: Option<&str>, path: Option<&str>, file_type: Option<&str>) -> AliasRecord {
    AliasRecord {
        alias: alias.map(|s| s.to_string()),
        path: path.map(|s| s.to_string()),
        file_type: file_type.map(|s| s.to_string()),
    }
}

fn some(text: &str) -> Option<String> {
    Some(text.to_string())
}

#[test]
fn complete_records_are_registered() {
    let records = vec![
        record(Some("guide"), Some("/external/doc.pdf"), Some("link")),
        record(Some("logo"), Some("/assets/logo.png"), Some("image")),
    ];
    let cache = FileCache::from_records("/book", &records).unwrap();
    assert_eq!(cache.len(), 2);
    assert_eq!(cache.output_dir(), "/book/src/_files");
    assert_eq!(cache.get_insert_text("guide"), some("[guide](./_files/doc.pdf)"));
    assert_eq!(cache.get_insert_text("logo"), some("![Image not found](./_files/logo.png)"));
}

#[test]
fn no_records_give_an_empty_registry() {
    let cache = FileCache::from_records("/book", &Vec::new()).unwrap();
    assert_eq!(cache.len(), 0);
}

#[test]
fn record_without_path_is_skipped() {
    let records = vec![record(Some("guide"), None, Some("link"))];
    let cache = FileCache::from_records("/book", &records).unwrap();
    assert_eq!(cache.len(), 0);
    assert_eq!(cache.get_insert_text("guide"), None);
    assert_eq!(cache.get_link_path("guide"), None);
}

#[test]
fn record_without_alias_is_skipped() {
    let records = vec![record(None, Some("/external/doc.pdf"), Some("link"))];
    let cache = FileCache::from_records("/book", &records).unwrap();
    assert_eq!(cache.len(), 0);
}

#[test]
fn record_without_kind_is_skipped() {
    let records = vec![record(Some("guide"), Some("/external/doc.pdf"), None)];
    let cache = FileCache::from_records("/book", &records).unwrap();
    assert_eq!(cache.len(), 0);
    assert_eq!(cache.get_insert_text("guide"), None);
}

#[test]
fn skipped_record_does_not_disturb_the_others() {
    let records = vec![
        record(Some("a"), Some("/x/a.txt"), Some("link")),
        record(Some("b"), None, Some("link")),
        record(None, None, None),
        record(Some("c"), Some("/x/c.png"), Some("image")),
    ];
    let cache = FileCache::from_records("/book", &records).unwrap();
    assert_eq!(cache.len(), 2);
    assert_eq!(cache.get_insert_text("a"), some("[a](./_files/a.txt)"));
    assert_eq!(cache.get_insert_text("b"), None);
    assert_eq!(cache.get_insert_text("c"), some("![Image not found](./_files/c.png)"));
}

#[test]
fn unknown_kind_fails_the_loading() {
    let records = vec![
        record(Some("a"), Some("/x/a.txt"), Some("link")),
        record(Some("b"), Some("/x/b.txt"), Some("movie")),
        record(Some("c"), Some("/x/c.png"), Some("image")),
    ];
    assert_eq!(
        FileCache::from_records("/book", &records).err(),
        Some(FileSearchProcessorError::FileTypeConversionFailed)
    );
}

#[test]
fn unknown_kind_in_an_incomplete_record_is_no_error() {
    let records = vec![
        record(Some("a"), None, Some("movie")),
        record(None, Some("/x/b.txt"), Some("movie")),
        record(Some("c"), Some("/x/c.png"), Some("image")),
    ];
    let cache = FileCache::from_records("/book", &records).unwrap();
    assert_eq!(cache.len(), 1);
    assert_eq!(cache.get_insert_text("c"), some("![Image not found](./_files/c.png)"));
}

#[test]
fn later_record_for_an_alias_wins() {
    let records = vec![
        record(Some("guide"), Some("/old/doc.pdf"), Some("link")),
        record(Some("other"), Some("/x/other.txt"), Some("link")),
        record(Some("guide"), Some("/new/pic.png"), Some("image")),
    ];
    let cache = FileCache::from_records("/book", &records).unwrap();
    assert_eq!(cache.len(), 2);
    assert_eq!(cache.get_insert_text("guide"), some("![Image not found](./_files/pic.png)"));
}

#[test]
fn loading_is_registering_one_by_one() {
    let records = vec![
        record(Some("guide"), Some("/external/doc.pdf"), Some("link")),
        record(Some("skipped"), None, None),
        record(Some("logo"), Some("/assets/logo.png"), Some("image")),
    ];
    let loaded = FileCache::from_records("/book", &records).unwrap();
    let mut by_hand = FileCache::new("/book").unwrap();
    by_hand.add_file("guide", "/external/doc.pdf", "link").unwrap();
    by_hand.add_file("logo", "/assets/logo.png", "image").unwrap();
    assert_eq!(loaded.len(), by_hand.len());
    for alias in ["guide", "skipped", "logo", "none"] {
        assert_eq!(loaded.get_insert_text(alias), by_hand.get_insert_text(alias));
    }
}
