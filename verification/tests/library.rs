use e_reader::formats::{BookMeta, ParsedBook};
use e_reader::library::{
    cover_data_url, cover_mime, fallback_meta, get_supported_formats, ingest_message,
    ingest_result, launch_arg_candidate, refreshed_author, refreshed_title,
};
use e_reader::models::BookFormat;

#[test]
fn import_messages() {
    assert_eq!(ingest_message(0, 0, 2), "Nothing imported (2 path(s) skipped).");
    assert_eq!(ingest_message(3, 1, 0), "Imported 3 file(s) and 1 folder(s).");
    assert_eq!(ingest_message(1, 0, 2), "Imported 1 file(s) (2 skipped).");
    assert_eq!(ingest_message(0, 2, 0), "Imported 2 folder(s).");
    assert_eq!(ingest_message(0, 0, 0), "Nothing to import.");
    assert_eq!(ingest_message(12, 0, 0), "Imported 12 file(s).");
}

#[test]
fn import_results() {
    let r = ingest_result(2, 0, vec!["a".to_string(), "b".to_string()], 1);
    assert_eq!(r.open_book_id.as_deref(), Some("a"));
    assert_eq!(r.book_ids, vec!["a".to_string(), "b".to_string()]);
    assert_eq!(r.message, "Imported 2 file(s) (1 skipped).");
    let none = ingest_result(0, 1, Vec::new(), 0);
    assert!(none.open_book_id.is_none());
    assert_eq!(none.folders_added, 1);
}

#[test]
fn launch_arguments() {
    assert_eq!(launch_arg_candidate("  --flag"), None);
    assert_eq!(launch_arg_candidate("   "), None);
    assert_eq!(launch_arg_candidate("C:/x/Node_Modules/y"), None);
    assert_eq!(launch_arg_candidate("/usr/lib/Tauri.js"), None);
    assert_eq!(launch_arg_candidate("/usr/lib/cli.js"), None);
    assert_eq!(
        launch_arg_candidate(" /home/a/book.epub "),
        Some("/home/a/book.epub".to_string())
    );
}

#[test]
fn supported_formats() {
    let names = get_supported_formats();
    assert_eq!(names, vec!["txt", "markdown", "epub", "fb2"]);
    for n in names {
        let f = BookFormat::parse(n).expect("known format");
        assert_eq!(f.as_str(), n);
    }
}

#[test]
fn cover_urls() {
    assert_eq!(cover_mime("jpeg"), "image/jpeg");
    assert_eq!(cover_mime("JPG"), "application/octet-stream");
    assert_eq!(cover_data_url("/c/abc.png", &[1, 2, 3]), "data:image/png;base64,AQID");
    assert_eq!(cover_data_url("/c/abc", &[0xff]), "data:application/octet-stream;base64,/w==");
    assert_eq!(cover_data_url("/c/x.svg", &[]), "data:image/svg+xml;base64,");
}

#[test]
fn catalog_entries_refresh() {
    let meta: BookMeta = fallback_meta("/b/Old Tale.fb2");
    assert_eq!(meta.title, "Old Tale");
    assert!(meta.author.is_none() && meta.cover.is_none());
    let parsed = ParsedBook {
        html: String::new(),
        toc: Vec::new(),
        title: Some(String::new()),
        author: Some("New".to_string()),
        cover: None,
    };
    assert_eq!(refreshed_title("Kept".to_string(), &parsed.title), "Kept");
    assert_eq!(refreshed_title("Old".to_string(), &Some("Fresh".to_string())), "Fresh");
    assert_eq!(refreshed_title("Old".to_string(), &None), "Old");
    assert_eq!(refreshed_author(Some("Old".to_string()), &parsed.author), Some("New".to_string()));
    assert_eq!(refreshed_author(Some("Old".to_string()), &None), Some("Old".to_string()));
}
