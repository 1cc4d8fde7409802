use e_reader::download::{
    after_download, candidate_extension, cd_has_ext, check_import_url, classify_response,
    detect_book_extension, extract_book_links, filename_from_url, format_for_path, from_hex,
    http_error_result, imported_result, is_non_book_url, looks_like_epub, looks_like_html,
    numbered_file_name, page_without_books_result, resolve_url, sanitize_filename,
    saved_book_result, unreadable_download_result, unsupported_link_result, url_has_ext,
    urlencoding_decode, AfterDownload, Fetched, UrlCheck,
};
use e_reader::models::{BookFormat, ImportFromUrlResult};

fn zip_epub_bytes() -> Vec<u8> {
    let mut b = b"PK\x03\x04".to_vec();
    b.extend_from_slice(&[0u8; 26]);
    b.extend_from_slice(b"mimetypeapplication/epub+zip");
    b
}

#[test]
fn payment_links_are_not_books() {
    assert!(is_non_book_url("https://www.PayPal.com/checkout"));
    assert!(is_non_book_url("https://example.com/Donate/now"));
    assert!(is_non_book_url("https://boosty.to/author"));
    assert!(!is_non_book_url("https://example.com/books/tale.epub"));
}

#[test]
fn html_sniffing() {
    assert!(looks_like_html(b"  <!DOCTYPE HTML><html><body>x</body></html>"));
    assert!(looks_like_html(b"<BODY>"));
    assert!(!looks_like_html(b"plain text"));
    let mut late = vec![b' '; 600];
    late.extend_from_slice(b"<html>");
    assert!(!looks_like_html(&late));
}

#[test]
fn epub_sniffing() {
    assert!(looks_like_epub(&zip_epub_bytes()));
    assert!(looks_like_epub(b"PKxxepub"));
    assert!(!looks_like_epub(b"PK\x03\x04nothing here"));
    assert!(!looks_like_epub(b"mimetype epub"));
}

#[test]
fn extension_checks() {
    assert!(url_has_ext("https://a.com/B.EPUB?x=1", "epub"));
    assert!(!url_has_ext("https://a.com/b?file=x.epub", "epub"));
    assert!(cd_has_ext("attachment; filename=\"Book.FB2\"", "fb2"));
    assert!(!cd_has_ext("inline", "fb2"));
}

#[test]
fn book_extension_detection() {
    assert_eq!(detect_book_extension("https://x/y", "", "", &zip_epub_bytes()), Some("epub"));
    assert_eq!(
        detect_book_extension("https://x/y.epub", "", "", b"PK\x03\x04 zip"),
        Some("epub")
    );
    assert_eq!(
        detect_book_extension("https://x/y", "", "", b"<?xml version=\"1.0\"?><FictionBook>"),
        Some("fb2")
    );
    assert_eq!(
        detect_book_extension("https://x/y", "", "", b"\xEF\xBB\xBF<?xml?><fictionbook>"),
        Some("fb2")
    );
    assert_eq!(
        detect_book_extension("https://x/y", "application/epub+zip", "", b"data"),
        Some("epub")
    );
    assert_eq!(detect_book_extension("https://x/y.fb2?dl=1", "", "", b"data"), Some("fb2"));
    assert_eq!(
        detect_book_extension("https://x/y", "", "attachment; filename=book.TXT", b"data"),
        Some("txt")
    );
    assert_eq!(detect_book_extension("https://x/y.markdown", "", "", b"#"), Some("md"));
    assert_eq!(detect_book_extension("https://x/y", "text/html", "", b"<html>"), None);
    assert_eq!(
        detect_book_extension("https://x/y", "", "", b"PK\x03\x04 plain zip"),
        None
    );
}

#[test]
fn raw_content_type_is_lowered() {
    assert_eq!(
        candidate_extension("https://x/y", "Application/EPUB+zip", "", b"data"),
        Some("epub")
    );
    assert_eq!(candidate_extension("https://x/y", "text/plain", "", b"data"), None);
}

#[test]
fn links_on_a_page() {
    let html = r##"<a href="/files/a.fb2">A</a> <a HREF='b.txt'>B</a>
        <a href="https://cdn.example.com/x.epub">X</a> <a href="#top">top</a>
        <a href="mailto:a@b.c">mail</a> <a href="/about">about</a>
        <a href="b.txt">again</a> <a href = "/download/123">dl</a>"##;
    let links = extract_book_links(html, "https://shop.example.com/books/page.html");
    assert_eq!(
        links,
        vec![
            "https://cdn.example.com/x.epub".to_string(),
            "https://shop.example.com/files/a.fb2".to_string(),
            "https://shop.example.com/books/b.txt".to_string(),
            "https://shop.example.com/download/123".to_string(),
        ]
    );
    assert!(extract_book_links("<p>nothing</p>", "https://a.com/").is_empty());
}

#[test]
fn url_resolution() {
    assert_eq!(resolve_url("not a url", "https://a.com/x"), Some("https://a.com/x".to_string()));
    assert_eq!(
        resolve_url("https://a.com/dir/page", "../f.epub"),
        Some("https://a.com/f.epub".to_string())
    );
    assert_eq!(resolve_url("not a url", "f.epub"), None);
}

#[test]
fn percent_decoding() {
    assert_eq!(from_hex(b'7'), Some(7));
    assert_eq!(from_hex(b'c'), Some(12));
    assert_eq!(from_hex(b'F'), Some(15));
    assert_eq!(from_hex(b'g'), None);
    assert_eq!(urlencoding_decode("My%20Book+One"), "My Book One");
    assert_eq!(urlencoding_decode("%e2%82%AC"), "\u{20ac}");
    assert_eq!(urlencoding_decode("%41%2"), "A%2");
    assert_eq!(urlencoding_decode("%zz"), "%zz");
    assert_eq!(urlencoding_decode("%ff"), "\u{fffd}");
}

#[test]
fn safe_file_names() {
    assert_eq!(sanitize_filename("a<b>:c\"d/e\\f|g?h*i"), "a_b__c_d_e_f_g_h_i");
    assert_eq!(sanitize_filename("tab\there"), "tab_here");
    assert_eq!(sanitize_filename("  ..name..  "), "name");
    assert_eq!(sanitize_filename(" . . "), " ");
    assert_eq!(sanitize_filename("..."), "book");
    assert_eq!(sanitize_filename(""), "book");
    let long: String = std::iter::repeat('x').take(200).collect();
    assert_eq!(sanitize_filename(&long).chars().count(), 120);
}

#[test]
fn file_names_from_urls() {
    assert_eq!(
        filename_from_url("https://x.com/path/My%20Book.EPUB?dl=1", "epub"),
        "My Book.EPUB"
    );
    assert_eq!(filename_from_url("https://x.com/dl/get?id=5", "fb2"), "get.fb2");
    assert_eq!(filename_from_url("https://x.com/", "txt"), "txt");
    assert_eq!(filename_from_url("https://x.com/a:b", "md"), "a_b.md");
}

#[test]
fn numbered_names() {
    assert_eq!(numbered_file_name("Book.epub", 2), "Book-2.epub");
    assert_eq!(numbered_file_name("README", 3), "README-3.bin");
    assert_eq!(numbered_file_name("a.b.fb2", 10), "a.b-10.fb2");
}

fn refused(r: &ImportFromUrlResult, message: &str) -> bool {
    !r.success
        && r.open_book_id.is_none()
        && r.title.is_none()
        && r.path.is_none()
        && r.message == message
        && r.open_externally
}

#[test]
fn pasted_links_are_checked() {
    match check_import_url("ftp://example.com/a.epub") {
        UrlCheck::Refuse(r) => assert!(refused(&r, "Only http(s) links can be downloaded.")),
        UrlCheck::Fetch(_) => panic!("fetched a non-http link"),
    }
    match check_import_url("  https://paypal.com/pay ") {
        UrlCheck::Refuse(r) => assert!(refused(&r, "Link opened in the system browser.")),
        UrlCheck::Fetch(_) => panic!("fetched a payment link"),
    }
    match check_import_url(" https://example.com/a.epub\n") {
        UrlCheck::Fetch(u) => assert_eq!(u, "https://example.com/a.epub"),
        UrlCheck::Refuse(_) => panic!("refused a book link"),
    }
}

#[test]
fn fixed_answers() {
    assert!(refused(&http_error_result(404), "Server returned HTTP 404."));
    assert!(refused(
        &page_without_books_result(),
        "No downloadable book file found on the page. Opening in browser."
    ));
    assert!(refused(&unsupported_link_result(), "This link is not a supported book file."));
    let saved = saved_book_result("/data/downloads/a.epub");
    assert!(saved.success && !saved.open_externally);
    assert_eq!(saved.path.as_deref(), Some("/data/downloads/a.epub"));
    assert_eq!(saved.message, "Downloaded to /data/downloads/a.epub");
}

#[test]
fn responses_are_classified() {
    match classify_response("https://x/a", "application/octet-stream", "", &zip_epub_bytes()) {
        Fetched::Book(e) => assert_eq!(e, "epub"),
        _ => panic!("expected a book"),
    }
    let page = b"<html><body><a href=\"/b.fb2\">b</a></body></html>";
    match classify_response("https://x/p", "Text/HTML; charset=utf-8", "", page) {
        Fetched::Page(links) => assert_eq!(links, vec!["https://x/b.fb2".to_string()]),
        _ => panic!("expected a page"),
    }
    match classify_response("https://x/p", "", "", b"<!doctype html><p>x</p>") {
        Fetched::Page(links) => assert!(links.is_empty()),
        _ => panic!("expected a page"),
    }
    assert!(matches!(
        classify_response("https://x/p", "application/json", "", b"{}"),
        Fetched::Other
    ));
}

#[test]
fn after_a_download() {
    let failed = ImportFromUrlResult {
        success: false,
        open_book_id: Some("x".to_string()),
        title: Some("t".to_string()),
        path: Some("/p".to_string()),
        message: "m".to_string(),
        open_externally: true,
    };
    match after_download(failed) {
        AfterDownload::Finished(r) => {
            assert!(!r.success && r.open_book_id.is_none() && r.title.is_none());
            assert_eq!(r.path.as_deref(), Some("/p"));
            assert_eq!(r.message, "m");
            assert!(r.open_externally);
        }
        AfterDownload::Index(_) => panic!("indexed a failed download"),
    }
    let no_path = ImportFromUrlResult {
        success: true,
        open_book_id: None,
        title: None,
        path: None,
        message: "ok".to_string(),
        open_externally: false,
    };
    match after_download(no_path) {
        AfterDownload::Finished(r) => {
            assert!(!r.success && !r.open_externally);
            assert_eq!(r.message, "Download succeeded but path is missing.");
        }
        AfterDownload::Index(_) => panic!("indexed without a path"),
    }
    match after_download(saved_book_result("/d/a.fb2")) {
        AfterDownload::Index(p) => assert_eq!(p, "/d/a.fb2"),
        AfterDownload::Finished(_) => panic!("expected indexing"),
    }
    let bad = unreadable_download_result("/d/a.bin".to_string());
    assert_eq!(bad.message, "Downloaded file is not a supported book format.");
    assert!(!bad.success && !bad.open_externally);
    let ok = imported_result("id1".to_string(), "Tale".to_string(), "/d/t.epub".to_string());
    assert!(ok.success);
    assert_eq!(ok.open_book_id.as_deref(), Some("id1"));
    assert_eq!(ok.message, "Book added to library: Tale");
}

#[test]
fn download_formats() {
    assert_eq!(format_for_path("/d/a.Fb2"), Some(BookFormat::Fb2));
    assert_eq!(format_for_path("/d/a.bin"), None);
}
