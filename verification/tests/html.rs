use e_reader::html_util::{
    ensure_heading_ids, escape_html, extension_for_mime, extract_body_inner, extract_headings,
    first_heading_text, mime_from_path, strip_tags,
};
use e_reader::models::{default_locale, BookFormat};
use e_reader::paths::{path_extension, path_file_stem};

#[test]
fn body_extraction() {
    assert_eq!(
        extract_body_inner("<html><BODY class=\"x\">\n  <p>Hi</p>\n</Body></html>"),
        "<p>Hi</p>"
    );
    assert_eq!(extract_body_inner("<p>no body</p>"), "<p>no body</p>");
    assert_eq!(extract_body_inner("<body>unterminated"), "<body>unterminated");
}

#[test]
fn escaping() {
    assert_eq!(escape_html("a & <b> \"c\" 'd'"), "a &amp; &lt;b&gt; &quot;c&quot; &#39;d&#39;");
    let escaped = escape_html("<<'\">>");
    assert!(!escaped.contains('<') && !escaped.contains('>'));
    assert!(!escaped.contains('"') && !escaped.contains('\''));
}

#[test]
fn mime_types() {
    assert_eq!(mime_from_path("img/Cover.JPEG"), "image/jpeg");
    assert_eq!(mime_from_path("a.svg"), "image/svg+xml");
    assert_eq!(mime_from_path("a.bmp"), "application/octet-stream");
    assert_eq!(extension_for_mime("image/jpg"), "jpg");
    assert_eq!(extension_for_mime("image/avif"), "avif");
    assert_eq!(extension_for_mime("IMAGE/PNG"), "bin");
}

#[test]
fn tag_stripping() {
    assert_eq!(strip_tags("<b>Tom&nbsp;&amp;&nbsp;Jerry</b> &lt;3"), "Tom & Jerry <3");
    assert_eq!(strip_tags("a<br/>b"), "ab");
}

#[test]
fn headings() {
    let html = "<h1 id=\"top\">One</h1><p>x</p><h2 class=\"c\">Two <em>B</em></h2><h3> </h3><h4>Four</h4>";
    let hs = extract_headings(html);
    assert_eq!(hs.len(), 2);
    assert_eq!(hs[0].level, 1);
    assert_eq!(hs[0].text, "One");
    assert_eq!(hs[0].id.as_deref(), Some("top"));
    assert_eq!(hs[1].text, "Two B");
    assert!(hs[1].id.is_none());
    assert_eq!(first_heading_text(html).as_deref(), Some("One"));
    assert_eq!(first_heading_text("<p>none</p>"), None);
}

#[test]
fn heading_ids_are_added() {
    let (out, hs) = ensure_heading_ids("<h1 id=\"top\">One</h1><h2 class=\"c\">Two</h2><h3>Three</h2>", "p-");
    assert_eq!(
        out,
        "<h1 id=\"top\">One</h1><h2 class=\"c\" id=\"p-h1\">Two</h2><h3 id=\"p-h2\">Three</h3>"
    );
    assert_eq!(hs.len(), 3);
    assert_eq!(hs[1].id.as_deref(), Some("p-h1"));
    assert_eq!(hs[2].id.as_deref(), Some("p-h2"));
    let plain = extract_headings("<h1 id=\"top\">One</h1><h2 class=\"c\">Two</h2><h3>Three</h2>");
    assert_eq!(plain.len(), hs.len());
    for (a, b) in plain.iter().zip(hs.iter()) {
        assert_eq!(a.text, b.text);
        assert_eq!(a.level, b.level);
    }
}

#[test]
fn format_names_round_trip() {
    for f in [BookFormat::Txt, BookFormat::Markdown, BookFormat::Epub, BookFormat::Fb2] {
        assert_eq!(BookFormat::parse(f.as_str()), Some(f));
        assert_eq!(BookFormat::from_extension(f.as_str()), Some(f));
        assert!(f.is_readable());
    }
    assert_eq!(BookFormat::from_extension("MD"), Some(BookFormat::Markdown));
    assert_eq!(BookFormat::parse("md"), None);
    assert_eq!(default_locale(), "ru");
}

#[test]
fn path_parts() {
    assert_eq!(path_extension("/a/b.tar.gz"), Some("gz".to_string()));
    assert_eq!(path_file_stem("/a/b.tar.gz"), Some("b.tar".to_string()));
    assert_eq!(path_extension("/a/.hidden"), None);
    assert_eq!(path_file_stem("/a/.hidden"), Some(".hidden".to_string()));
    assert_eq!(path_extension("/a/b/"), None);
    assert_eq!(path_file_stem("/a/b/"), Some("b".to_string()));
}

