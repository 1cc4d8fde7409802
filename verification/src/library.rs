//! What the reader's commands decide: the summary of an import, which launch
//! arguments are worth a look, the cover image as a data URL, and how a freshly
//! parsed book refreshes its catalog entry.
use crate::encoding::{base64_encoded, encode_base64};
use crate::epub::strings_view;
use crate::formats::{path_title, title_from_path, BookMeta};
use crate::models::{BookFormat, IngestResult};
use crate::paths::{extension, path_extension};
use crate::text::{
    ascii_lower, chars_of, contains_seq, decimal, ends_with, has_prefix, has_suffix, lower_chars,
    push_decimal, str_eq, string_of, trim, trim_chars,
};
use vstd::prelude::*;

verus! {

// ---------------------------------------------------------------------------
// Import summaries
// ---------------------------------------------------------------------------

/// The message shown after files and folders were imported and paths skipped.
pub open spec fn ingest_text(files: nat, folders: nat, skipped: nat) -> Seq<char> {
    if files == 0 && folders == 0 && skipped > 0 {
        "Nothing imported ("@ + decimal(skipped) + " path(s) skipped)."@
    } else {
        let base = if files > 0 && folders > 0 {
            "Imported "@ + decimal(files) + " file(s)"@ + " and "@ + decimal(folders)
                + " folder(s)"@
        } else if files > 0 {
            "Imported "@ + decimal(files) + " file(s)"@
        } else if folders > 0 {
            "Imported "@ + decimal(folders) + " folder(s)"@
        } else {
            "Nothing to import"@
        };
        if skipped > 0 {
            base + " ("@ + decimal(skipped) + " skipped)."@
        } else {
            base + "."@
        }
    }
}

pub fn ingest_message(files: usize, folders: usize, skipped: usize) -> (r: String)
    ensures
        r@ == ingest_text(files as nat, folders as nat, skipped as nat),
{
    if files == 0 && folders == 0 && skipped > 0 {
        let mut m = String::from_str("Nothing imported (");
        push_decimal(&mut m, skipped);
        m.append(" path(s) skipped).");
        return m;
    }
    let mut m = if files == 0 && folders == 0 {
        String::from_str("Nothing to import")
    } else {
        String::from_str("Imported ")
    };
    if files > 0 {
        push_decimal(&mut m, files);
        m.append(" file(s)");
    }
    if files > 0 && folders > 0 {
        m.append(" and ");
    }
    if folders > 0 {
        push_decimal(&mut m, folders);
        m.append(" folder(s)");
    }
    if skipped > 0 {
        m.append(" (");
        push_decimal(&mut m, skipped);
        m.append(" skipped).");
    } else {
        m.append(".");
    }
    proof {
        let f = files as nat;
        let d = folders as nat;
        let s = skipped as nat;
        let base = if f > 0 && d > 0 {
            "Imported "@ + decimal(f) + " file(s)"@ + " and "@ + decimal(d) + " folder(s)"@
        } else if f > 0 {
            "Imported "@ + decimal(f) + " file(s)"@
        } else if d > 0 {
            "Imported "@ + decimal(d) + " folder(s)"@
        } else {
            "Nothing to import"@
        };
        if s > 0 {
            assert(m@ =~= base + " ("@ + decimal(s) + " skipped)."@);
        } else {
            assert(m@ =~= base + "."@);
        }
    }
    m
}

/// The outcome of importing paths: the counts, the ids of the imported books
/// in order, the first of them to open, and the summary message.
pub fn ingest_result(files_imported: usize, folders_added: usize, book_ids: Vec<String>, skipped: usize) -> (r:
    IngestResult)
    ensures
        r.files_imported == files_imported,
        r.folders_added == folders_added,
        r.skipped == skipped,
        r.book_ids@ == book_ids@,
        r.open_book_id.deep_view() == (if book_ids@.len() > 0 {
            Some(book_ids@[0]@)
        } else {
            None
        }),
        r.message@ == ingest_text(files_imported as nat, folders_added as nat, skipped as nat),
{
    let open_book_id = if book_ids.len() > 0 {
        Some(book_ids[0].clone())
    } else {
        None
    };
    let message = ingest_message(files_imported, folders_added, skipped);
    IngestResult { files_imported, folders_added, book_ids, open_book_id, skipped, message }
}

/// What to do with one path handed over for import.
#[derive(Debug, Clone, Copy, PartialEq, Eq, Structural)]
pub enum IngestAction {
    Skip,
    AddFolder,
    Import(BookFormat),
}

/// A blank or missing path is skipped, a folder becomes a library root, and a
/// file is imported when its format is known and skipped otherwise (as is
/// anything that is neither a folder nor a file).
pub open spec fn ingest_action_of(
    blank: bool,
    exists: bool,
    is_dir: bool,
    is_file: bool,
    format: Option<BookFormat>,
) -> IngestAction {
    if blank || !exists {
        IngestAction::Skip
    } else if is_dir {
        IngestAction::AddFolder
    } else if !is_file {
        IngestAction::Skip
    } else {
        match format {
            Some(f) => IngestAction::Import(f),
            None => IngestAction::Skip,
        }
    }
}

pub fn ingest_action(blank: bool, exists: bool, is_dir: bool, is_file: bool, format: Option<BookFormat>) -> (r:
    IngestAction)
    ensures
        r == ingest_action_of(blank, exists, is_dir, is_file, format),
{
    if blank || !exists {
        IngestAction::Skip
    } else if is_dir {
        IngestAction::AddFolder
    } else if !is_file {
        IngestAction::Skip
    } else {
        match format {
            Some(f) => IngestAction::Import(f),
            None => IngestAction::Skip,
        }
    }
}

/// What became of one path.
#[derive(Debug, Clone)]
pub enum IngestOutcome {
    Skipped,
    FolderAdded,
    /// Imported as the book with this id.
    Imported(String),
}

/// Files imported, folders added, paths skipped, and the imported ids in order.
pub open spec fn outcome_tally(os: Seq<IngestOutcome>) -> (nat, nat, nat, Seq<Seq<char>>)
    decreases os.len(),
{
    if os.len() == 0 {
        (0, 0, 0, Seq::empty())
    } else {
        let t = outcome_tally(os.drop_last());
        match os.last() {
            IngestOutcome::Skipped => (t.0, t.1, t.2 + 1, t.3),
            IngestOutcome::FolderAdded => (t.0, t.1 + 1, t.2, t.3),
            IngestOutcome::Imported(id) => (t.0 + 1, t.1, t.2, t.3.push(id@)),
        }
    }
}

/// Every path is counted once, and each imported file has its id.
pub proof fn lemma_tally_counts(os: Seq<IngestOutcome>)
    ensures
        outcome_tally(os).0 + outcome_tally(os).1 + outcome_tally(os).2 == os.len(),
        outcome_tally(os).3.len() == outcome_tally(os).0,
    decreases os.len(),
{
    if os.len() > 0 {
        lemma_tally_counts(os.drop_last());
    }
}

/// The outcome of importing paths, from what became of each of them.
pub fn ingest_summary(outcomes: &Vec<IngestOutcome>) -> (r: IngestResult)
    ensures
        r.files_imported == outcome_tally(outcomes@).0,
        r.folders_added == outcome_tally(outcomes@).1,
        r.skipped == outcome_tally(outcomes@).2,
        strings_view(r.book_ids@) == outcome_tally(outcomes@).3,
        r.files_imported + r.folders_added + r.skipped == outcomes@.len(),
        r.book_ids@.len() == r.files_imported,
        r.open_book_id.deep_view() == (if r.book_ids@.len() > 0 {
            Some(r.book_ids@[0]@)
        } else {
            None
        }),
        r.message@ == ingest_text(r.files_imported as nat, r.folders_added as nat, r.skipped as nat),
{
    let mut files: usize = 0;
    let mut folders: usize = 0;
    let mut skipped: usize = 0;
    let mut ids: Vec<String> = Vec::new();
    let mut i: usize = 0;
    assert(strings_view(ids@) =~= Seq::<Seq<char>>::empty());
    while i < outcomes.len()
        invariant
            i <= outcomes@.len(),
            outcome_tally(outcomes@.take(i as int)) == (
                files as nat,
                folders as nat,
                skipped as nat,
                strings_view(ids@),
            ),
        decreases outcomes@.len() - i,
    {
        proof {
            lemma_tally_counts(outcomes@.take(i as int));
        }
        assert(outcomes@.take(i + 1).drop_last() =~= outcomes@.take(i as int));
        assert(outcomes@.take(i + 1).last() == outcomes@[i as int]);
        match &outcomes[i] {
            IngestOutcome::Skipped => {
                skipped = skipped + 1;
            },
            IngestOutcome::FolderAdded => {
                folders = folders + 1;
            },
            IngestOutcome::Imported(id) => {
                let ghost before = ids@;
                files = files + 1;
                ids.push(id.clone());
                assert(strings_view(ids@) =~= strings_view(before).push(id@));
            },
        }
        i = i + 1;
    }
    assert(outcomes@.take(outcomes@.len() as int) =~= outcomes@);
    proof {
        lemma_tally_counts(outcomes@);
    }
    ingest_result(files, folders, ids, skipped)
}

// ---------------------------------------------------------------------------
// Launch arguments
// ---------------------------------------------------------------------------

/// A launch argument worth checking on disk: trimmed, not empty, not a flag,
/// and not a path of the development tooling.
pub open spec fn launch_candidate(arg: Seq<char>) -> Option<Seq<char>> {
    let t = trim(arg);
    let l = ascii_lower(t);
    if t.len() == 0 || has_prefix(t, seq!['-']) {
        None
    } else if contains_seq(l, "node_modules"@) || has_suffix(l, "tauri.js"@) || has_suffix(
        l,
        "cli.js"@,
    ) {
        None
    } else {
        Some(t)
    }
}

pub fn launch_arg_candidate(arg: &str) -> (r: Option<String>)
    ensures
        r.deep_view() == launch_candidate(arg@),
{
    let t = trim_chars(chars_of(arg).as_slice());
    if t.len() == 0 || t[0] == '-' {
        proof {
            if t@.len() > 0 {
                assert(t@.subrange(0, 1) =~= seq!['-']);
            }
        }
        return None;
    }
    proof {
        assert(t@.subrange(0, 1)[0] == t@[0]);
    }
    let l = lower_chars(t.as_slice());
    let nm = chars_of("node_modules");
    let tj = chars_of("tauri.js");
    let cj = chars_of("cli.js");
    if crate::text::contains_chars(l.as_slice(), nm.as_slice()) || ends_with(
        l.as_slice(),
        tj.as_slice(),
    ) || ends_with(l.as_slice(), cj.as_slice()) {
        return None;
    }
    Some(string_of(t.as_slice()))
}

// ---------------------------------------------------------------------------
// Formats and covers
// ---------------------------------------------------------------------------

pub open spec fn supported_names() -> Seq<Seq<char>> {
    seq!["txt"@, "markdown"@, "epub"@, "fb2"@]
}

/// The format names the reader opens.
pub fn get_supported_formats() -> (r: Vec<&'static str>)
    ensures
        r@.map_values(|s: &str| s@) == supported_names(),
{
    let r: Vec<&'static str> = vec!["txt", "markdown", "epub", "fb2"];
    assert(r@.map_values(|s: &str| s@) =~= supported_names());
    r
}

/// Every supported name is the stored name of a format, and reads back as it.
pub proof fn lemma_supported_formats_parse()
    ensures
        forall|i: int|
            0 <= i < supported_names().len() ==> ((#[trigger] BookFormat::named(supported_names()[i]))
                matches Some(f) && f.name() == supported_names()[i]),
{
    crate::models::lemma_parse_as_str(BookFormat::Txt);
    crate::models::lemma_parse_as_str(BookFormat::Markdown);
    crate::models::lemma_parse_as_str(BookFormat::Epub);
    crate::models::lemma_parse_as_str(BookFormat::Fb2);
    assert forall|i: int| 0 <= i < supported_names().len() implies ((#[trigger] BookFormat::named(
        supported_names()[i],
    )) matches Some(f) && f.name() == supported_names()[i]) by {
        if i == 0 {
            assert(supported_names()[i] == BookFormat::Txt.name());
        } else if i == 1 {
            assert(supported_names()[i] == BookFormat::Markdown.name());
        } else if i == 2 {
            assert(supported_names()[i] == BookFormat::Epub.name());
        } else {
            assert(supported_names()[i] == BookFormat::Fb2.name());
        }
    }
}

/// The MIME type of a saved cover, by its exact extension.
pub open spec fn cover_mime_for(ext: Seq<char>) -> Seq<char> {
    if ext == "png"@ {
        "image/png"@
    } else if ext == "jpg"@ || ext == "jpeg"@ {
        "image/jpeg"@
    } else if ext == "gif"@ {
        "image/gif"@
    } else if ext == "webp"@ {
        "image/webp"@
    } else if ext == "svg"@ {
        "image/svg+xml"@
    } else if ext == "avif"@ {
        "image/avif"@
    } else {
        "application/octet-stream"@
    }
}

pub fn cover_mime(ext: &str) -> (r: &'static str)
    ensures
        r@ == cover_mime_for(ext@),
{
    if str_eq(ext, "png") {
        "image/png"
    } else if str_eq(ext, "jpg") || str_eq(ext, "jpeg") {
        "image/jpeg"
    } else if str_eq(ext, "gif") {
        "image/gif"
    } else if str_eq(ext, "webp") {
        "image/webp"
    } else if str_eq(ext, "svg") {
        "image/svg+xml"
    } else if str_eq(ext, "avif") {
        "image/avif"
    } else {
        "application/octet-stream"
    }
}

/// The extension of a path, or nothing.
pub open spec fn ext_or_empty(path: Seq<char>) -> Seq<char> {
    match extension(path) {
        Some(e) => e,
        None => Seq::empty(),
    }
}

/// A `data:` URL of the cover file at `path` holding `bytes`.
pub open spec fn cover_url(path: Seq<char>, bytes: Seq<u8>) -> Seq<char> {
    "data:"@ + cover_mime_for(ext_or_empty(path)) + ";base64,"@ + base64_encoded(bytes)
}

pub fn cover_data_url(path: &str, bytes: &[u8]) -> (r: String)
    requires
        bytes@.len() <= usize::MAX / 2,
    ensures
        r@ == cover_url(path@, bytes@),
{
    let mime = match path_extension(path) {
        Some(e) => cover_mime(e.as_str()),
        None => {
            proof {
                reveal_strlit("");
            }
            cover_mime("")
        },
    };
    let mut r = String::from_str("data:");
    r.append(mime);
    r.append(";base64,");
    let enc = encode_base64(bytes);
    r.append(enc.as_str());
    proof {
        if extension(path@) is None {
            assert(""@ =~= Seq::<char>::empty());
        }
    }
    r
}

// ---------------------------------------------------------------------------
// Catalog entries
// ---------------------------------------------------------------------------

/// The metadata a book gets when its file cannot be read: the title from the
/// file name and nothing else.
pub fn fallback_meta(path: &str) -> (r: BookMeta)
    ensures
        r.title@ == path_title(path@),
        r.author is None,
        r.cover is None,
{
    BookMeta { title: title_from_path(path), author: None, cover: None }
}

/// A parsed title replaces the stored one unless it is empty.
pub open spec fn refreshed_title_of(current: Seq<char>, parsed: Option<Seq<char>>) -> Seq<char> {
    match parsed {
        Some(t) => if t.len() > 0 {
            t
        } else {
            current
        },
        None => current,
    }
}

pub fn refreshed_title(current: String, parsed: &Option<String>) -> (r: String)
    ensures
        r@ == refreshed_title_of(current@, parsed.deep_view()),
{
    match parsed {
        Some(t) => {
            if chars_of(t.as_str()).len() > 0 {
                t.clone()
            } else {
                current
            }
        },
        None => current,
    }
}

/// A parsed author replaces the stored one.
pub fn refreshed_author(current: Option<String>, parsed: &Option<String>) -> (r: Option<String>)
    ensures
        r.deep_view() == (match parsed.deep_view() {
            Some(a) => Some(a),
            None => current.deep_view(),
        }),
{
    match parsed {
        Some(a) => Some(a.clone()),
        None => current,
    }
}

} // verus!
