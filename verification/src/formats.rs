//! Book formats: what a parsed book and its metadata hold, and dispatch by format.
use crate::epub::{EpubSource, images_fit};
use crate::fb2::Fb2Book;
use crate::html_util::ext_for_mime;
use crate::models::{BookFormat, TocEntry, toc_view};
use crate::paths::{extension, file_stem, path_extension, path_file_stem, sep_path, separated_path};
use vstd::prelude::*;

verus! {

/// Cover image bytes and their MIME type.
#[derive(Clone)]
pub struct CoverImage {
    pub bytes: Vec<u8>,
    pub mime: String,
}

/// Catalog metadata of a book.
#[derive(Clone)]
pub struct BookMeta {
    pub title: String,
    pub author: Option<String>,
    pub cover: Option<CoverImage>,
}

/// A book turned into reader HTML.
pub struct ParsedBook {
    pub html: String,
    pub toc: Vec<TocEntry>,
    pub title: Option<String>,
    pub author: Option<String>,
    pub cover: Option<CoverImage>,
}


pub open spec fn cover_view(c: Option<CoverImage>) -> Option<(Seq<u8>, Seq<char>)> {
    match c {
        Some(c) => Some((c.bytes@, c.mime@)),
        None => None,
    }
}

/// The format of a file, by its extension.
pub open spec fn format_of_path(path: Seq<char>) -> Option<BookFormat> {
    match extension(path) {
        Some(e) => BookFormat::for_extension(e),
        None => None,
    }
}

/// The title a file gets from its name: the file stem, else `Untitled`.
pub open spec fn path_title(path: Seq<char>) -> Seq<char> {
    match file_stem(path) {
        Some(s) => s,
        None => "Untitled"@,
    }
}

pub fn detect_format(path: &str) -> (r: Option<BookFormat>)
    ensures
        r == format_of_path(path@),
{
    match path_extension(path) {
        Some(e) => BookFormat::from_extension(e.as_str()),
        None => None,
    }
}

pub fn title_from_path(path: &str) -> (r: String)
    ensures
        r@ == path_title(path@),
{
    match path_file_stem(path) {
        Some(s) => s,
        None => String::from_str("Untitled"),
    }
}


/// The format of a file, with `\` read as a separator where the platform
/// reads it so.
pub fn detect_format_on(path: &str, backslash_separates: bool) -> (r: Option<BookFormat>)
    ensures
        r == format_of_path(sep_path(path@, backslash_separates)),
{
    detect_format(separated_path(path, backslash_separates).as_str())
}

/// The title a file gets from its name, with `\` read as a separator where
/// the platform reads it so.
pub fn title_from_path_on(path: &str, backslash_separates: bool) -> (r: String)
    ensures
        r@ == path_title(sep_path(path@, backslash_separates)),
{
    title_from_path(separated_path(path, backslash_separates).as_str())
}

/// A book file's contents as read from disk: the bytes of a text file, the
/// text of a Markdown file, or the parsed EPUB or FictionBook document.
pub enum BookSource {
    Txt(Vec<u8>),
    Markdown(String),
    Epub(EpubSource),
    Fb2(Fb2Book),
}

impl BookSource {
    pub open spec fn format_of(&self) -> BookFormat {
        match self {
            BookSource::Txt(_) => BookFormat::Txt,
            BookSource::Markdown(_) => BookFormat::Markdown,
            BookSource::Epub(_) => BookFormat::Epub,
            BookSource::Fb2(_) => BookFormat::Fb2,
        }
    }

    /// The format of the contents.
    pub fn format(&self) -> (r: BookFormat)
        ensures
            r == self.format_of(),
    {
        match self {
            BookSource::Txt(_) => BookFormat::Txt,
            BookSource::Markdown(_) => BookFormat::Markdown,
            BookSource::Epub(_) => BookFormat::Epub,
            BookSource::Fb2(_) => BookFormat::Fb2,
        }
    }
}

/// Catalog metadata: text and Markdown files are titled by file name; EPUB
/// and FictionBook by their own metadata.
pub fn extract_metadata(path: &str, source: &BookSource) -> (r: BookMeta)
    ensures
        match source {
            BookSource::Txt(_) | BookSource::Markdown(_) => r.title@ == path_title(path@)
                && r.author is None && r.cover is None,
            BookSource::Epub(e) => r.title@ == match crate::epub::non_blank_value(e.title) {
                Some(t) => t,
                None => path_title(path@),
            } && r.author.deep_view() == crate::epub::non_blank_value(e.creator) && cover_view(
                r.cover,
            ) == crate::epub::cover_of(e.cover),
            BookSource::Fb2(b) => r.title@ == (if crate::text::trim(b.book_title@).len() == 0 {
                path_title(path@)
            } else {
                b.book_title@
            }) && r.author.deep_view() == crate::fb2::first_author_name(b.authors@) && cover_view(
                r.cover,
            ) == crate::fb2::cover_spec(*b, crate::fb2::binary_table(b.binaries@)),
        },
{
    match source {
        BookSource::Txt(_) | BookSource::Markdown(_) => BookMeta {
            title: title_from_path(path),
            author: None,
            cover: None,
        },
        BookSource::Epub(e) => crate::epub::metadata(e, path),
        BookSource::Fb2(b) => crate::fb2::metadata(b, path),
    }
}

/// Turns a book into reader HTML; a text file is titled by its file name.
pub fn parse_book(path: &str, source: &BookSource) -> (r: ParsedBook)
    requires
        match source {
            BookSource::Epub(e) => images_fit(e.images@),
            _ => true,
        },
    ensures
        match source {
            BookSource::Txt(bytes) => {
                &&& r.html@ == crate::txt::txt_html(
                    if vstd::utf8::valid_utf8(bytes@) {
                        vstd::utf8::decode_utf8(bytes@)
                    } else {
                        crate::txt::utf8_lossy(bytes@)
                    },
                )
                &&& r.toc@.len() == 0
                &&& r.title.deep_view() == Some(path_title(path@))
                &&& r.author is None
                &&& r.cover is None
            },
            BookSource::Markdown(raw) => {
                let st = crate::markdown::md_fold(crate::markdown::markdown_events(raw@));
                &&& r.html@ == "<article class=\"markdown-book\">"@ + crate::markdown::markdown_rendered(
                    raw@,
                    st.1,
                ) + "</article>"@
                &&& toc_view(r.toc@) == st.0
                &&& r.title.deep_view() == crate::markdown::first_h1(st.0)
                &&& r.author is None
                &&& r.cover is None
            },
            BookSource::Epub(e) => {
                let map = crate::epub::image_entries(e.images@, e.images@.len() as int);
                &&& r.html@ == "<article class=\"epub-book\">"@ + crate::epub::chapters_html(
                    e.chapters@,
                    map,
                ) + "</article>"@
                &&& toc_view(r.toc@) == crate::epub::toc_spec(
                    *e,
                    crate::epub::chapter_hrefs_of(e.chapters@),
                    crate::epub::chapter_bodies_of(e.chapters@, map),
                )
                &&& r.title.deep_view() == crate::epub::non_blank_value(e.title)
                &&& r.author.deep_view() == crate::epub::non_blank_value(e.creator)
                &&& cover_view(r.cover) == crate::epub::cover_of(e.cover)
            },
            BookSource::Fb2(b) => {
                let bins = crate::fb2::binary_table(b.binaries@);
                &&& r.html@ == crate::fb2::book_spec(*b, bins).0
                &&& toc_view(r.toc@) == crate::fb2::book_spec(*b, bins).1
                &&& r.title.deep_view() == crate::fb2::book_title_spec(*b)
                &&& r.author.deep_view() == crate::fb2::first_author_name(b.authors@)
                &&& cover_view(r.cover) == crate::fb2::cover_spec(*b, bins)
            },
        },
{
    match source {
        BookSource::Txt(bytes) => {
            let mut parsed = crate::txt::parse(bytes.as_slice());
            parsed.title = Some(title_from_path(path));
            parsed
        },
        BookSource::Markdown(raw) => crate::markdown::parse(raw.as_str()),
        BookSource::Epub(e) => crate::epub::parse(e),
        BookSource::Fb2(b) => crate::fb2::parse(b),
    }
}

/// File name under which a book's cover is saved: the book id and the
/// extension of the cover's MIME type.
pub fn cover_file_name(book_id: &str, cover: &CoverImage) -> (r: String)
    ensures
        r@ == book_id@ + "."@ + ext_for_mime(cover.mime@),
{
    let mut name = String::from_str(book_id);
    name.append(".");
    name.append(crate::html_util::extension_for_mime(cover.mime.as_str()));
    name
}

} // verus!
