use e_reader::catalog::{books_to_remove, normalize_path_key, path_is_under_any_root, stored_format};
use e_reader::models::BookFormat;

fn strings(v: &[&str]) -> Vec<String> {
    v.iter().map(|s| s.to_string()).collect()
}

#[test]
fn path_keys() {
    assert_eq!(normalize_path_key("C:/Books/Fiction/", false), "C:\\Books\\Fiction");
    assert_eq!(normalize_path_key("C:/Books/Fiction/", true), "c:\\books\\fiction");
    assert_eq!(normalize_path_key("/", false), "\\");
    assert_eq!(normalize_path_key("\\\\\\", false), "\\");
    assert_eq!(normalize_path_key("", false), "");
}

#[test]
fn paths_under_roots() {
    let roots = strings(&["C:\\Books", "D:/Other/"]);
    assert!(path_is_under_any_root("C:/Books/a.epub", &roots, false));
    assert!(path_is_under_any_root("C:\\Books", &roots, false));
    assert!(path_is_under_any_root("D:\\Other\\x\\y.fb2", &roots, false));
    assert!(!path_is_under_any_root("C:/Booksmore/a.epub", &roots, false));
    assert!(!path_is_under_any_root("c:/books/a.epub", &roots, false));
    assert!(path_is_under_any_root("c:/books/a.epub", &roots, true));
    assert!(!path_is_under_any_root("C:/Books/a.epub", &Vec::new(), false));
}

#[test]
fn rescan_removes_only_missing_books_under_roots() {
    let catalog = vec![
        ("1".to_string(), "/lib/a.epub".to_string()),
        ("2".to_string(), "/lib/sub/b.fb2".to_string()),
        ("3".to_string(), "/downloads/c.epub".to_string()),
        ("4".to_string(), "/lib/d.txt".to_string()),
    ];
    let existing = strings(&["/lib/a.epub"]);
    let roots = strings(&["/lib"]);
    assert_eq!(books_to_remove(&catalog, &existing, &roots, false), strings(&["2", "4"]));
    assert!(books_to_remove(&catalog, &existing, &Vec::new(), false).is_empty());
}

#[test]
fn stored_formats_read_back() {
    assert_eq!(stored_format("epub"), BookFormat::Epub);
    assert_eq!(stored_format("markdown"), BookFormat::Markdown);
    assert_eq!(stored_format("fb2"), BookFormat::Fb2);
    assert_eq!(stored_format("EPUB"), BookFormat::Txt);
    assert_eq!(stored_format("md"), BookFormat::Txt);
}
