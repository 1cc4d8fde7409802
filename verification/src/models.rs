//! Plain data shared by the library, the catalog and the reader.
use crate::text::{ascii_lower, chars_of, lower_chars, string_of, str_eq};
use vstd::prelude::*;

verus! {

/// A book file format.
#[derive(Debug, Clone, Copy, PartialEq, Eq, Structural)]
pub enum BookFormat {
    Txt,
    Markdown,
    Epub,
    Fb2,
}

impl BookFormat {
    /// The name a format is stored under.
    pub open spec fn name(self) -> Seq<char> {
        match self {
            BookFormat::Txt => "txt"@,
            BookFormat::Markdown => "markdown"@,
            BookFormat::Epub => "epub"@,
            BookFormat::Fb2 => "fb2"@,
        }
    }

    /// The format a stored name stands for.
    pub open spec fn named(value: Seq<char>) -> Option<BookFormat> {
        if value == "txt"@ {
            Some(BookFormat::Txt)
        } else if value == "markdown"@ {
            Some(BookFormat::Markdown)
        } else if value == "epub"@ {
            Some(BookFormat::Epub)
        } else if value == "fb2"@ {
            Some(BookFormat::Fb2)
        } else {
            None
        }
    }

    /// The format of a file extension, compared case-insensitively.
    pub open spec fn for_extension(ext: Seq<char>) -> Option<BookFormat> {
        let l = ascii_lower(ext);
        if l == "txt"@ {
            Some(BookFormat::Txt)
        } else if l == "md"@ || l == "markdown"@ {
            Some(BookFormat::Markdown)
        } else if l == "epub"@ {
            Some(BookFormat::Epub)
        } else if l == "fb2"@ {
            Some(BookFormat::Fb2)
        } else {
            None
        }
    }

    pub fn as_str(&self) -> (r: &'static str)
        ensures
            r@ == self.name(),
    {
        match self {
            BookFormat::Txt => "txt",
            BookFormat::Markdown => "markdown",
            BookFormat::Epub => "epub",
            BookFormat::Fb2 => "fb2",
        }
    }

    pub fn from_extension(ext: &str) -> (r: Option<BookFormat>)
        ensures
            r == BookFormat::for_extension(ext@),
    {
        let l = string_of(lower_chars(chars_of(ext).as_slice()).as_slice());
        let l = l.as_str();
        if str_eq(l, "txt") {
            Some(BookFormat::Txt)
        } else if str_eq(l, "md") || str_eq(l, "markdown") {
            Some(BookFormat::Markdown)
        } else if str_eq(l, "epub") {
            Some(BookFormat::Epub)
        } else if str_eq(l, "fb2") {
            Some(BookFormat::Fb2)
        } else {
            None
        }
    }

    pub fn parse(value: &str) -> (r: Option<BookFormat>)
        ensures
            r == BookFormat::named(value@),
    {
        if str_eq(value, "txt") {
            Some(BookFormat::Txt)
        } else if str_eq(value, "markdown") {
            Some(BookFormat::Markdown)
        } else if str_eq(value, "epub") {
            Some(BookFormat::Epub)
        } else if str_eq(value, "fb2") {
            Some(BookFormat::Fb2)
        } else {
            None
        }
    }

    /// Every known format can be read.
    pub fn is_readable(&self) -> (r: bool)
        ensures
            r,
    {
        match self {
            BookFormat::Txt | BookFormat::Markdown | BookFormat::Epub | BookFormat::Fb2 => true,
        }
    }
}

/// A format's stored name reads back as that format.
pub proof fn lemma_parse_as_str(f: BookFormat)
    ensures
        BookFormat::named(f.name()) == Some(f),
{
    reveal_strlit("txt");
    reveal_strlit("markdown");
    reveal_strlit("epub");
    reveal_strlit("fb2");
    lemma_names_differ();
}

/// The stored names differ from each other.
proof fn lemma_names_differ()
    ensures
        "txt"@ != "markdown"@,
        "txt"@ != "epub"@,
        "txt"@ != "fb2"@,
        "txt"@ != "md"@,
        "markdown"@ != "epub"@,
        "markdown"@ != "fb2"@,
        "markdown"@ != "md"@,
        "epub"@ != "fb2"@,
        "epub"@ != "md"@,
        "fb2"@ != "md"@,
{
    reveal_strlit("txt");
    reveal_strlit("md");
    reveal_strlit("markdown");
    reveal_strlit("epub");
    reveal_strlit("fb2");
    assert("txt"@[0] != "fb2"@[0]);
    assert("txt"@.len() != "md"@.len());
    assert("txt"@.len() != "epub"@.len());
    assert("txt"@.len() != "markdown"@.len());
    assert("markdown"@.len() != "epub"@.len());
    assert("markdown"@.len() != "fb2"@.len());
    assert("markdown"@.len() != "md"@.len());
    assert("epub"@.len() != "fb2"@.len());
    assert("epub"@.len() != "md"@.len());
    assert("fb2"@.len() != "md"@.len());
}

/// A format's stored name is also an extension of that format.
pub proof fn lemma_from_extension_as_str(f: BookFormat)
    ensures
        BookFormat::for_extension(f.name()) == Some(f),
{
    reveal_strlit("txt");
    reveal_strlit("md");
    reveal_strlit("markdown");
    reveal_strlit("epub");
    reveal_strlit("fb2");
    assert(ascii_lower(f.name()) =~= f.name());
    lemma_names_differ();
}

/// UI language used when none was saved.
pub fn default_locale() -> (s: String)
    ensures
        s@ == "ru"@,
{
    String::from_str("ru")
}

/// One table-of-contents entry: the element id it jumps to, its title and depth.
#[derive(Debug, Clone)]
pub struct TocEntry {
    pub id: String,
    pub title: String,
    pub level: u8,
}

pub struct TocView {
    pub id: Seq<char>,
    pub title: Seq<char>,
    pub level: u8,
}

impl View for TocEntry {
    type V = TocView;

    open spec fn view(&self) -> TocView {
        TocView { id: self.id@, title: self.title@, level: self.level }
    }
}

pub open spec fn toc_view(v: Seq<TocEntry>) -> Seq<TocView> {
    v.map_values(|e: TocEntry| e@)
}

/// A folder scanned for books.
#[derive(Debug, Clone)]
pub struct LibraryRoot {
    pub id: String,
    pub path: String,
    pub added_at: String,
}

/// A saved reading position.
#[derive(Debug, Clone)]
pub struct Bookmark {
    pub id: String,
    pub book_id: String,
    pub position: String,
    pub label: Option<String>,
    pub created_at: String,
}

/// Counts reported by a library scan.
#[derive(Debug, Clone)]
pub struct ScanResult {
    pub added: usize,
    pub updated: usize,
    pub removed: usize,
    pub total: usize,
}

/// Result of importing paths from open-with, CLI, or drag-and-drop.
#[derive(Debug, Clone)]
pub struct IngestResult {
    pub files_imported: usize,
    pub folders_added: usize,
    /// Book ids for successfully imported files (order preserved).
    pub book_ids: Vec<String>,
    /// First imported book id, if any (handy for auto-open).
    pub open_book_id: Option<String>,
    pub skipped: usize,
    pub message: String,
}

/// Result of downloading a remote URL into the library.
#[derive(Debug, Clone)]
pub struct ImportFromUrlResult {
    pub success: bool,
    /// Book was saved and indexed; open this id in the reader if desired.
    pub open_book_id: Option<String>,
    pub title: Option<String>,
    pub path: Option<String>,
    pub message: String,
    /// Caller should open the URL in the system browser instead.
    pub open_externally: bool,
}

} // verus!
