use e_reader::download::{name_attempt, page_step, saved_book_result, PageStep};
use e_reader::epub::normalize_href;
use e_reader::formats::{detect_format_on, title_from_path_on};
use e_reader::html_util::{ensure_heading_ids, escape_html, strip_tags};
use e_reader::library::{ingest_action, ingest_summary, IngestAction, IngestOutcome};
use e_reader::models::BookFormat;

#[test]
fn ingest_actions() {
    assert_eq!(ingest_action(true, true, false, true, Some(BookFormat::Txt)), IngestAction::Skip);
    assert_eq!(ingest_action(false, false, false, false, None), IngestAction::Skip);
    assert_eq!(ingest_action(false, true, true, false, None), IngestAction::AddFolder);
    assert_eq!(ingest_action(false, true, false, false, None), IngestAction::Skip);
    assert_eq!(ingest_action(false, true, false, true, None), IngestAction::Skip);
    assert_eq!(
        ingest_action(false, true, false, true, Some(BookFormat::Epub)),
        IngestAction::Import(BookFormat::Epub)
    );
}

#[test]
fn ingest_tally() {
    let outcomes = vec![
        IngestOutcome::Skipped,
        IngestOutcome::Imported("a".to_string()),
        IngestOutcome::FolderAdded,
        IngestOutcome::Imported("b".to_string()),
        IngestOutcome::Skipped,
    ];
    let r = ingest_summary(&outcomes);
    assert_eq!((r.files_imported, r.folders_added, r.skipped), (2, 1, 2));
    assert_eq!(r.files_imported + r.folders_added + r.skipped, outcomes.len());
    assert_eq!(r.book_ids, vec!["a".to_string(), "b".to_string()]);
    assert_eq!(r.open_book_id.as_deref(), Some("a"));
    assert_eq!(r.message, "Imported 2 file(s) and 1 folder(s) (2 skipped).");
    let none = ingest_summary(&Vec::new());
    assert_eq!(none.message, "Nothing to import.");
}

#[test]
fn save_name_attempts() {
    assert_eq!(name_attempt("a.epub", 0), None);
    assert_eq!(name_attempt("a.epub", 1), Some("a.epub".to_string()));
    assert_eq!(name_attempt("a.epub", 2), Some("a-2.epub".to_string()));
    assert_eq!(name_attempt("a.epub", 999), Some("a-999.epub".to_string()));
    assert_eq!(name_attempt("a.epub", 1000), None);
}

#[test]
fn page_link_steps() {
    match page_step(0, 3, Some(saved_book_result("/d/x.epub"))) {
        PageStep::Done(r) => assert_eq!(r.path.as_deref(), Some("/d/x.epub")),
        _ => panic!("a saved book ends the search"),
    }
    assert!(matches!(page_step(0, 3, None), PageStep::Next(1)));
    match page_step(2, 3, None) {
        PageStep::GiveUp(r) => {
            assert!(r.open_externally);
            assert_eq!(r.message, "No downloadable book file found on the page. Opening in browser.");
        }
        _ => panic!("the last link ends the search"),
    }
}

#[test]
fn normalizing_twice() {
    for h in ["OEBPS/./text/../img/a.png#x", " a\\b/c ", "/", "", "x/../.."] {
        let r = normalize_href(h);
        assert_eq!(normalize_href(&r), r);
    }
    assert_eq!(normalize_href("b/a /x/.."), "/b/a ");
    assert_eq!(normalize_href("/b/a "), "/b/a");
}

#[test]
fn stripping_escaped_text() {
    for s in ["plain", "<b> \"q\" 'a' >", "nbsp; lt; <<>>", ""] {
        assert_eq!(strip_tags(&escape_html(s)), s);
    }
}

#[test]
fn generated_heading_ids_count_the_missing_ones() {
    let (_, hs) = ensure_heading_ids("<h1>A</h1><h2 id=\"k\">B</h2><h3>C</h3>", "x-");
    let ids: Vec<&str> = hs.iter().map(|h| h.id.as_deref().unwrap()).collect();
    assert_eq!(ids, vec!["x-h1", "k", "x-h2"]);
}

#[test]
fn windows_separators() {
    assert_eq!(title_from_path_on("C:\\books\\War.txt", true), "War");
    assert_eq!(detect_format_on("C:\\books\\War.txt", true), Some(BookFormat::Txt));
    assert_eq!(title_from_path_on("C:\\books\\War.txt", false), "C:\\books\\War");
    assert_eq!(detect_format_on("dir.epub\\notes", true), None);
    assert_eq!(e_reader::paths::separated_path("a\\b/c", true), "a/b/c");
}
