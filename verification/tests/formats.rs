use e_reader::epub::{self as epub_fmt, EpubChapter, EpubResource, EpubSource, EpubTocNode};
use e_reader::fb2::{
    self as fb2_fmt, Fb2Author, Fb2Binary, Fb2Body, Fb2Book, Fb2Section, Fb2Title, SectionContent,
    SectionPart, StyleElement, TitleElement,
};
use e_reader::formats::{
    cover_file_name, detect_format, extract_metadata, parse_book, title_from_path, BookSource,
    CoverImage,
};
use e_reader::markdown;
use e_reader::models::BookFormat;
use e_reader::txt::{decode_text, text_to_html};

fn text(s: &str) -> StyleElement {
    StyleElement::Text(s.to_string())
}

fn title_of(s: &str) -> Fb2Title {
    Fb2Title { elements: vec![TitleElement::Paragraph(vec![text(s)])] }
}

fn sample_fb2() -> Fb2Book {
    Fb2Book {
        book_title: "Sample FictionBook".to_string(),
        authors: vec![Fb2Author::Verbose {
            first_name: "Ada".to_string(),
            middle_name: None,
            last_name: "Lovelace".to_string(),
            nickname: None,
        }],
        cover_href: Some("#cover.png".to_string()),
        body: Some(Fb2Body {
            title: Some(title_of("Sample fb2 book")),
            sections: vec![
                Fb2Section {
                    id: None,
                    content: Some(SectionContent {
                        title: Some(title_of("Chapter One")),
                        image: None,
                        content: vec![SectionPart::Paragraph(vec![text(
                            "This is a FictionBook sample.",
                        )])],
                        sections: vec![],
                    }),
                },
                Fb2Section {
                    id: Some("two".to_string()),
                    content: Some(SectionContent {
                        title: Some(title_of("Chapter Two")),
                        image: None,
                        content: vec![SectionPart::Paragraph(vec![StyleElement::Strong(vec![
                            text("Bold <text>"),
                        ])])],
                        sections: vec![],
                    }),
                },
            ],
        }),
        binaries: vec![Fb2Binary {
            id: "cover.png".to_string(),
            content_type: "image/png".to_string(),
            content: "AQ ID".to_string(),
        }],
    }
}

fn sample_epub() -> EpubSource {
    EpubSource {
        title: Some("Example EPUB".to_string()),
        creator: Some("  Jane Doe ".to_string()),
        cover: None,
        images: vec![EpubResource {
            href: "OEBPS/images/pic.png".to_string(),
            media_type: "image/png".to_string(),
            bytes: vec![1, 2, 3],
        }],
        chapters: vec![
            EpubChapter {
                href: "OEBPS/text/ch1.xhtml".to_string(),
                content: "<html><head><link rel=\"stylesheet\" href=\"style.css\"/></head><body><h1>First</h1><p>One</p><img src=\"/OEBPS/images/pic.png\"/></body></html>".to_string(),
            },
            EpubChapter {
                href: "OEBPS/text/ch2.xhtml".to_string(),
                content: "<html><body><h1>Second</h1><p>Two</p></body></html>".to_string(),
            },
        ],
        toc_contents: None,
        toc_epub2: None,
        toc_epub3: None,
    }
}

#[test]
fn parse_example_epub() {
    let parsed = epub_fmt::parse(&sample_epub());
    assert!(parsed.html.contains("epub-chapter"));
    assert!(parsed.title.is_some());
}

#[test]
fn parse_sample_fb2() {
    let parsed = fb2_fmt::parse(&sample_fb2());
    assert!(parsed.html.contains("FictionBook") || parsed.html.contains("fb2"));
    assert_eq!(parsed.author.as_deref(), Some("Ada Lovelace"));
    assert!(!parsed.toc.is_empty());
}

#[test]
fn markdown_toc_and_title() {
    let parsed = markdown::parse("# Title\n\n## Section\n\nBody.\n");
    assert_eq!(parsed.title.as_deref(), Some("Title"));
    assert!(parsed.toc.iter().any(|t| t.title == "Section"));
    assert!(parsed.html.contains("id=\"heading-1\""));
}

#[test]
fn txt_paragraphs() {
    let source = BookSource::Txt(b"Hello\nworld\n\nSecond.\n".to_vec());
    let parsed = parse_book("/tmp/e-reader-txt-test.txt", &source);
    assert!(parsed.html.contains("<p>Hello world</p>"));
    assert!(parsed.html.contains("<p>Second.</p>"));
    assert_eq!(parsed.title.as_deref(), Some("e-reader-txt-test"));
}

#[test]
fn epub_images_are_inlined_and_stylesheets_dropped() {
    let parsed = epub_fmt::parse(&sample_epub());
    assert!(parsed.html.contains("data:image/png;base64,AQID"));
    assert!(!parsed.html.contains("style.css"));
    assert_eq!(parsed.author.as_deref(), Some("  Jane Doe "));
    assert!(parsed.toc.len() >= 2);
}

#[test]
fn epub_toc_from_navigation() {
    let mut source = sample_epub();
    source.toc_contents = Some(EpubTocNode {
        label: "root".to_string(),
        href: None,
        children: vec![
            EpubTocNode {
                label: "Start".to_string(),
                href: Some("text/ch1.xhtml#top".to_string()),
                children: vec![],
            },
            EpubTocNode {
                label: "Next".to_string(),
                href: Some("text/ch2.xhtml".to_string()),
                children: vec![],
            },
        ],
    });
    let parsed = epub_fmt::parse(&source);
    assert!(parsed.toc.len() >= 2);
}

#[test]
fn epub_metadata_falls_back_to_file_name() {
    let mut source = sample_epub();
    source.title = Some("   ".to_string());
    let meta = epub_fmt::metadata(&source, "/books/My Novel.epub");
    assert_eq!(meta.title, "My Novel");
    assert_eq!(meta.author.as_deref(), Some("  Jane Doe "));
}

#[test]
fn epub_href_helpers() {
    assert_eq!(epub_fmt::normalize_href("OEBPS/text/../images/./a.png#frag"), "/OEBPS/images/a.png");
    assert_eq!(epub_fmt::normalize_href(" #only "), "");
    let hrefs = vec!["OEBPS/text/ch1.xhtml".to_string(), "OEBPS/text/ch2.xhtml".to_string()];
    assert_eq!(epub_fmt::href_to_chapter_id("text/ch2.xhtml#p3", &hrefs), "chapter-1");
}

#[test]
fn fb2_metadata_and_binaries() {
    let book = sample_fb2();
    let bins = fb2_fmt::binary_map(&book);
    assert_eq!(bins.len(), 1);
    assert_eq!(bins[0].content, "AQID");
    let meta = fb2_fmt::metadata(&book, "/books/x.fb2");
    assert_eq!(meta.title, "Sample FictionBook");
    assert_eq!(meta.author.as_deref(), Some("Ada Lovelace"));
    let cover = meta.cover.expect("cover");
    assert_eq!(cover.bytes, vec![1u8, 2, 3]);
    assert_eq!(cover.mime, "image/png");
}

#[test]
fn fb2_escapes_text() {
    let parsed = fb2_fmt::parse(&sample_fb2());
    assert!(parsed.html.contains("<strong>Bold &lt;text&gt;</strong>"));
    assert!(parsed.toc.iter().any(|t| t.title == "Chapter Two"));
}

#[test]
fn format_detection_and_titles() {
    assert_eq!(detect_format("/a/b/Book.EPUB"), Some(BookFormat::Epub));
    assert_eq!(detect_format("notes.md"), Some(BookFormat::Markdown));
    assert_eq!(detect_format("tale.fb2"), Some(BookFormat::Fb2));
    assert_eq!(detect_format("readme.txt"), Some(BookFormat::Txt));
    assert_eq!(detect_format("archive.zip"), None);
    assert_eq!(detect_format("noext"), None);
    assert_eq!(title_from_path("/x/y/Great Book.epub"), "Great Book");
}

#[test]
fn metadata_of_plain_text_uses_file_name() {
    let meta = extract_metadata("/x/story.txt", &BookSource::Txt(b"hi".to_vec()));
    assert_eq!(meta.title, "story");
    assert!(meta.author.is_none());
    assert!(meta.cover.is_none());
}

#[test]
fn cover_file_names() {
    let cover = CoverImage { bytes: vec![0], mime: "image/jpeg".to_string() };
    assert_eq!(cover_file_name("abc", &cover), "abc.jpg");
    let other = CoverImage { bytes: vec![0], mime: "text/plain".to_string() };
    assert_eq!(cover_file_name("abc", &other), "abc.bin");
}

#[test]
fn text_decoding_and_paragraphs() {
    assert_eq!(decode_text("héllo".as_bytes()), "héllo");
    assert_eq!(decode_text(&[0x61, 0xff, 0x62]), "a\u{fffd}b");
    assert_eq!(
        text_to_html("  a  \n b\n\n\n<c>"),
        "<article class=\"txt-book\"><p>a b</p><p>&lt;c&gt;</p></article>"
    );
    assert_eq!(text_to_html(" \n\n"), "<article class=\"txt-book\"><p></p></article>");
}

#[test]
fn epub_toc_prefers_the_richest_table() {
    let mut source = sample_epub();
    source.chapters = vec![EpubChapter {
        href: "OEBPS/body.xhtml".to_string(),
        content: "<body><h1>Prologue</h1><p>a</p><h1>One</h1><p>b</p><h1 id=\"e\">Epilogue</h1></body>"
            .to_string(),
    }];
    source.toc_contents = Some(EpubTocNode {
        label: String::new(),
        href: None,
        children: vec![EpubTocNode {
            label: "Prologue".to_string(),
            href: Some("body.xhtml".to_string()),
            children: vec![],
        }],
    });
    let parsed = epub_fmt::parse(&source);
    let titles: Vec<&str> = parsed.toc.iter().map(|t| t.title.as_str()).collect();
    assert_eq!(titles, vec!["Prologue", "One", "Epilogue"]);
    assert_eq!(parsed.toc[2].id, "e");
    assert_eq!(parsed.toc[0].id, "c0-h1");
}

#[test]
fn epub_covers() {
    let mut source = sample_epub();
    source.cover = Some(EpubResource {
        href: "OEBPS/Cover.JPG".to_string(),
        media_type: "application/octet-stream".to_string(),
        bytes: vec![9, 9],
    });
    let meta = epub_fmt::metadata(&source, "/b/x.epub");
    let cover = meta.cover.expect("cover");
    assert_eq!(cover.mime, "image/jpeg");
    assert_eq!(cover.bytes, vec![9u8, 9]);
    source.cover = Some(EpubResource {
        href: "c.png".to_string(),
        media_type: "image/png".to_string(),
        bytes: vec![],
    });
    assert!(epub_fmt::metadata(&source, "/b/x.epub").cover.is_none());
}
