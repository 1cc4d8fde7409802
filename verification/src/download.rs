//! Importing books from the web: which links are worth following, what a
//! downloaded body holds, and what the saved file is called.
//!
//! The fetching itself (HTTP, the file system) is left to the caller; the
//! functions here decide on the values it hands over.
use crate::epub::strings_view;
use crate::formats::{detect_format, format_of_path};
use crate::models::BookFormat;
pub use crate::models::ImportFromUrlResult;
use crate::paths::{extension, file_stem, path_extension, path_file_stem};
use crate::pattern::{
    group_or_empty, group_or_empty_str, regex_captures, regex_spans, spans_ok, spans_view, Spans,
};
use crate::text::{
    ascii_lower, chars_of, contains_chars, contains_seq, decimal, ends_with, has_prefix,
    has_suffix, lower_chars, push_char, push_decimal, slice_tail, split_by, split_chars,
    starts_with, str_eq, string_of, trim, trim_chars,
};
use crate::txt::{utf8_lossy, utf8_lossy_text};
use vstd::prelude::*;
use vstd::utf8::encode_utf8;

verus! {

// ---------------------------------------------------------------------------
// Bytes
// ---------------------------------------------------------------------------

/// `p` occurs in `b` at index `i`.
pub open spec fn bytes_at(b: Seq<u8>, p: Seq<u8>, i: int) -> bool {
    0 <= i && i + p.len() <= b.len() && b.subrange(i, i + p.len()) == p
}

/// `<[u8]>::starts_with`.
pub open spec fn bytes_prefix(b: Seq<u8>, p: Seq<u8>) -> bool {
    bytes_at(b, p, 0)
}

/// Some window of `b` equals `p`.
pub open spec fn bytes_contain(b: Seq<u8>, p: Seq<u8>) -> bool {
    exists|i: int| bytes_at(b, p, i)
}

/// The first `n` bytes, or all of them when there are fewer.
pub open spec fn head(b: Seq<u8>, n: int) -> Seq<u8> {
    if b.len() <= n {
        b
    } else {
        b.take(n)
    }
}

fn bytes_occur(b: &[u8], p: &[u8], i: usize) -> (r: bool)
    ensures
        r == bytes_at(b@, p@, i as int),
{
    let n = b.len();
    if i > n || p.len() > n - i {
        return false;
    }
    let mut k: usize = 0;
    while k < p.len()
        invariant
            n == b@.len(),
            i + p@.len() <= b@.len(),
            k <= p@.len(),
            forall|j: int| 0 <= j < k ==> b@[i + j] == p@[j],
        decreases p@.len() - k,
    {
        if b[i + k] != p[k] {
            assert(b@.subrange(i as int, i + p@.len())[k as int] != p@[k as int]);
            return false;
        }
        k = k + 1;
    }
    assert(b@.subrange(i as int, i + p@.len()) =~= p@);
    true
}

fn bytes_start_with(b: &[u8], p: &[u8]) -> (r: bool)
    ensures
        r == bytes_prefix(b@, p@),
{
    bytes_occur(b, p, 0)
}

/// Whether `p` occurs within the first `limit` bytes of `b`.
fn bytes_contain_within(b: &[u8], limit: usize, p: &[u8]) -> (r: bool)
    requires
        p@.len() > 0,
    ensures
        r == bytes_contain(head(b@, limit as int), p@),
{
    let h = bytes_head(b, limit);
    let mut i: usize = 0;
    while i < h.len()
        invariant
            i <= h@.len(),
            h@ == head(b@, limit as int),
            forall|j: int| 0 <= j < i ==> !bytes_at(h@, p@, j),
        decreases h@.len() - i,
    {
        if bytes_occur(h.as_slice(), p, i) {
            return true;
        }
        i = i + 1;
    }
    assert forall|j: int| !bytes_at(h@, p@, j) by {
        if j >= h@.len() {
            assert(!bytes_at(h@, p@, j));
        }
    }
    false
}

/// `&b[..b.len().min(n)]`, copied.
fn bytes_head(b: &[u8], n: usize) -> (r: Vec<u8>)
    ensures
        r@ == head(b@, n as int),
{
    let mut r: Vec<u8> = Vec::new();
    let mut i: usize = 0;
    while i < b.len() && i < n
        invariant
            i <= b@.len(),
            i <= n,
            r@ == b@.take(i as int),
        decreases b@.len() - i,
    {
        r.push(b[i]);
        i = i + 1;
        assert(r@ =~= b@.take(i as int));
    }
    assert(b@.len() <= n ==> b@.take(i as int) =~= b@);
    r
}

/// The first `n` bytes decoded lossily and lower-cased.
pub open spec fn lower_head(b: Seq<u8>, n: int) -> Seq<char> {
    ascii_lower(utf8_lossy(head(b, n)))
}

fn lower_head_chars(b: &[u8], n: usize) -> (r: Vec<char>)
    ensures
        r@ == lower_head(b@, n as int),
{
    let h = bytes_head(b, n);
    let s = utf8_lossy_text(h.as_slice());
    lower_chars(chars_of(s.as_str()).as_slice())
}

fn has_lit(v: &Vec<char>, lit: &str) -> (r: bool)
    ensures
        r == contains_seq(v@, lit@),
{
    let p = chars_of(lit);
    contains_chars(v.as_slice(), p.as_slice())
}

// ---------------------------------------------------------------------------
// What a link or a body looks like
// ---------------------------------------------------------------------------

/// Links to payment and donation pages, which are opened in the browser.
pub open spec fn non_book_url(url: Seq<char>) -> bool {
    let l = ascii_lower(url);
    ||| contains_seq(l, "paypal.com"@)
    ||| contains_seq(l, "patreon.com"@)
    ||| contains_seq(l, "boosty.to"@)
    ||| contains_seq(l, "donate"@)
    ||| contains_seq(l, "payment"@)
}

pub fn is_non_book_url(url: &str) -> (r: bool)
    ensures
        r == non_book_url(url@),
{
    let l = lower_chars(chars_of(url).as_slice());
    has_lit(&l, "paypal.com") || has_lit(&l, "patreon.com") || has_lit(&l, "boosty.to")
        || has_lit(&l, "donate") || has_lit(&l, "payment")
}

/// An HTML page: its first 512 bytes mention `<html`, `<!doctype html` or `<body`.
pub open spec fn html_like(b: Seq<u8>) -> bool {
    let s = lower_head(b, 512);
    contains_seq(s, "<html"@) || contains_seq(s, "<!doctype html"@) || contains_seq(s, "<body"@)
}

pub fn looks_like_html(bytes: &[u8]) -> (r: bool)
    ensures
        r == html_like(bytes@),
{
    let s = lower_head_chars(bytes, 512);
    has_lit(&s, "<html") || has_lit(&s, "<!doctype html") || has_lit(&s, "<body")
}

pub open spec fn zip_magic() -> Seq<u8> {
    seq![0x50u8, 0x4bu8, 0x03u8, 0x04u8]
}

pub open spec fn mimetype_bytes() -> Seq<u8> {
    seq![0x6du8, 0x69u8, 0x6du8, 0x65u8, 0x74u8, 0x79u8, 0x70u8, 0x65u8]
}

pub open spec fn epub_bytes() -> Seq<u8> {
    seq![0x65u8, 0x70u8, 0x75u8, 0x62u8]
}

pub open spec fn xml_decl() -> Seq<u8> {
    seq![0x3cu8, 0x3fu8, 0x78u8, 0x6du8, 0x6cu8]
}

pub open spec fn bom_xml_decl() -> Seq<u8> {
    seq![0xefu8, 0xbbu8, 0xbfu8] + xml_decl()
}

/// A zip archive (`PK`) whose first 8 KiB mention `mimetype` or `epub`.
pub open spec fn epub_like(b: Seq<u8>) -> bool {
    &&& bytes_prefix(b, seq![0x50u8, 0x4bu8])
    &&& bytes_contain(head(b, 8192), mimetype_bytes()) || bytes_contain(
        head(b, 8192),
        epub_bytes(),
    )
}

pub fn looks_like_epub(bytes: &[u8]) -> (r: bool)
    ensures
        r == epub_like(bytes@),
{
    let pk: Vec<u8> = vec![0x50u8, 0x4bu8];
    assert(pk@ =~= seq![0x50u8, 0x4bu8]);
    if !bytes_start_with(bytes, pk.as_slice()) {
        return false;
    }
    let m: Vec<u8> = vec![0x6du8, 0x69u8, 0x6du8, 0x65u8, 0x74u8, 0x79u8, 0x70u8, 0x65u8];
    assert(m@ =~= mimetype_bytes());
    let e: Vec<u8> = vec![0x65u8, 0x70u8, 0x75u8, 0x62u8];
    assert(e@ =~= epub_bytes());
    bytes_contain_within(bytes, 8192, m.as_slice()) || bytes_contain_within(
        bytes,
        8192,
        e.as_slice(),
    )
}

/// The part of a URL before its first `?`.
pub open spec fn url_path(url: Seq<char>) -> Seq<char> {
    split_by(url, '?')[0]
}

/// The URL's path ends with `.ext`, compared case-insensitively.
pub open spec fn url_ext(url: Seq<char>, ext: Seq<char>) -> bool {
    has_suffix(ascii_lower(url_path(url)), seq!['.'] + ext)
}

/// A `Content-Disposition` value that mentions `.ext`.
pub open spec fn cd_ext(cd: Seq<char>, ext: Seq<char>) -> bool {
    contains_seq(ascii_lower(cd), seq!['.'] + ext)
}

fn dotted(ext: &str) -> (r: Vec<char>)
    ensures
        r@ == seq!['.'] + ext@,
{
    let mut r: Vec<char> = vec!['.'];
    let e = chars_of(ext);
    let mut i: usize = 0;
    while i < e.len()
        invariant
            i <= e@.len(),
            e@ == ext@,
            r@ == seq!['.'] + e@.take(i as int),
        decreases e@.len() - i,
    {
        r.push(e[i]);
        i = i + 1;
        assert(r@ =~= seq!['.'] + e@.take(i as int));
    }
    assert(e@.take(e@.len() as int) =~= e@);
    r
}

/// The characters before the first `?`.
fn url_path_chars(url: &str) -> (r: Vec<char>)
    ensures
        r@ == url_path(url@),
{
    let pieces = split_chars(chars_of(url).as_slice(), '?');
    let ghost mv = pieces@.map_values(|v: Vec<char>| v@);
    assert(mv.len() == pieces@.len());
    assert(split_by(url@, '?').len() >= 1);
    assert(mv[0] == pieces@[0]@);
    let first = pieces[0].clone();
    proof {
        assert(first@ == pieces@[0]@);
    }
    first
}

pub fn url_has_ext(url: &str, ext: &str) -> (r: bool)
    ensures
        r == url_ext(url@, ext@),
{
    let l = lower_chars(url_path_chars(url).as_slice());
    let d = dotted(ext);
    ends_with(l.as_slice(), d.as_slice())
}

pub fn cd_has_ext(cd: &str, ext: &str) -> (r: bool)
    ensures
        r == cd_ext(cd@, ext@),
{
    let l = lower_chars(chars_of(cd).as_slice());
    let d = dotted(ext);
    contains_chars(l.as_slice(), d.as_slice())
}

/// The response itself says EPUB: its content type, URL or disposition.
pub open spec fn says_ext(url: Seq<char>, ct: Seq<char>, cd: Seq<char>, ext: Seq<char>) -> bool {
    contains_seq(ct, ext) || url_ext(url, ext) || cd_ext(cd, ext)
}

/// An XML document whose first 400 bytes mention `FictionBook`.
pub open spec fn fb2_like(b: Seq<u8>) -> bool {
    &&& bytes_prefix(b, xml_decl()) || bytes_prefix(b, bom_xml_decl())
    &&& contains_seq(lower_head(b, 400), "fictionbook"@) || contains_seq(
        lower_head(b, 400),
        "<fictionbook"@,
    )
}

/// The book extension of a downloaded body, from its first bytes, then its
/// content type (already lower-cased), URL and `Content-Disposition`.
pub open spec fn book_extension(url: Seq<char>, ct: Seq<char>, cd: Seq<char>, b: Seq<u8>) -> Option<
    Seq<char>,
> {
    if bytes_prefix(b, zip_magic()) && (says_ext(url, ct, cd, "epub"@) || epub_like(b)) {
        Some("epub"@)
    } else if fb2_like(b) {
        Some("fb2"@)
    } else if says_ext(url, ct, cd, "epub"@) {
        Some("epub"@)
    } else if says_ext(url, ct, cd, "fb2"@) {
        Some("fb2"@)
    } else if url_ext(url, "txt"@) || cd_ext(cd, "txt"@) {
        Some("txt"@)
    } else if url_ext(url, "md"@) || url_ext(url, "markdown"@) || cd_ext(cd, "md"@) {
        Some("md"@)
    } else {
        None
    }
}

/// A URL whose path ends in a book extension (`.epub`, `.fb2`, `.txt`, `.md`,
/// `.markdown`) always names a book.
pub proof fn lemma_book_url_detected(url: Seq<char>, ct: Seq<char>, cd: Seq<char>, b: Seq<u8>)
    requires
        url_ext(url, "epub"@) || url_ext(url, "fb2"@) || url_ext(url, "txt"@) || url_ext(url, "md"@)
            || url_ext(url, "markdown"@),
    ensures
        book_extension(url, ct, cd, b) is Some,
{
}

/// Nothing with a non-empty pattern occurs in empty text.
proof fn lemma_nothing_in_empty(p: Seq<char>)
    requires
        p.len() > 0,
    ensures
        !contains_seq(Seq::<char>::empty(), p),
{
}

/// A link to a `.md` file, without headers and whose bytes are neither a zip
/// archive nor a FictionBook document, is a Markdown book.
pub proof fn lemma_md_url_is_markdown(url: Seq<char>, b: Seq<u8>)
    requires
        url_ext(url, "md"@),
        !bytes_prefix(b, zip_magic()),
        !fb2_like(b),
    ensures
        book_extension(url, Seq::empty(), Seq::empty(), b) == Some("md"@),
{
    reveal_strlit("md");
    reveal_strlit("epub");
    reveal_strlit("fb2");
    reveal_strlit("txt");
    let e = Seq::<char>::empty();
    let l = ascii_lower(url_path(url));
    assert(l[l.len() - 1] == (seq!['.'] + "md"@)[2]);
    assert(!url_ext(url, "epub"@)) by {
        if url_ext(url, "epub"@) {
            assert(l[l.len() - 1] == (seq!['.'] + "epub"@)[4]);
        }
    }
    assert(!url_ext(url, "fb2"@)) by {
        if url_ext(url, "fb2"@) {
            assert(l[l.len() - 1] == (seq!['.'] + "fb2"@)[3]);
        }
    }
    assert(!url_ext(url, "txt"@)) by {
        if url_ext(url, "txt"@) {
            assert(l[l.len() - 1] == (seq!['.'] + "txt"@)[3]);
        }
    }
    assert(ascii_lower(e) =~= e);
    lemma_nothing_in_empty("epub"@);
    lemma_nothing_in_empty("fb2"@);
    lemma_nothing_in_empty(seq!['.'] + "epub"@);
    lemma_nothing_in_empty(seq!['.'] + "fb2"@);
    lemma_nothing_in_empty(seq!['.'] + "txt"@);
    assert(!says_ext(url, e, e, "epub"@));
    assert(!says_ext(url, e, e, "fb2"@));
    assert(!cd_ext(e, "txt"@));
}

fn says_ext_exec(url: &str, ct: &str, cd: &str, ext: &str) -> (r: bool)
    ensures
        r == says_ext(url@, ct@, cd@, ext@),
{
    let c = chars_of(ct);
    let e = chars_of(ext);
    contains_chars(c.as_slice(), e.as_slice()) || url_has_ext(url, ext) || cd_has_ext(cd, ext)
}

fn fb2_like_exec(bytes: &[u8]) -> (r: bool)
    ensures
        r == fb2_like(bytes@),
{
    let x: Vec<u8> = vec![0x3cu8, 0x3fu8, 0x78u8, 0x6du8, 0x6cu8];
    assert(x@ =~= xml_decl());
    let bx: Vec<u8> = vec![0xefu8, 0xbbu8, 0xbfu8, 0x3cu8, 0x3fu8, 0x78u8, 0x6du8, 0x6cu8];
    assert(bx@ =~= bom_xml_decl());
    if !(bytes_start_with(bytes, x.as_slice()) || bytes_start_with(bytes, bx.as_slice())) {
        return false;
    }
    let h = lower_head_chars(bytes, 400);
    has_lit(&h, "fictionbook") || has_lit(&h, "<fictionbook")
}

pub fn detect_book_extension(url: &str, content_type: &str, content_disposition: &str, bytes: &[u8]) -> (r:
    Option<&'static str>)
    ensures
        r matches Some(e) ==> book_extension(url@, content_type@, content_disposition@, bytes@)
            == Some(e@),
        r is None ==> book_extension(url@, content_type@, content_disposition@, bytes@) is None,
{
    let z: Vec<u8> = vec![0x50u8, 0x4bu8, 0x03u8, 0x04u8];
    assert(z@ =~= zip_magic());
    if bytes_start_with(bytes, z.as_slice()) {
        if says_ext_exec(url, content_type, content_disposition, "epub") || looks_like_epub(bytes) {
            return Some("epub");
        }
    }
    if fb2_like_exec(bytes) {
        return Some("fb2");
    }
    if says_ext_exec(url, content_type, content_disposition, "epub") {
        return Some("epub");
    }
    if says_ext_exec(url, content_type, content_disposition, "fb2") {
        return Some("fb2");
    }
    if url_has_ext(url, "txt") || cd_has_ext(content_disposition, "txt") {
        return Some("txt");
    }
    if url_has_ext(url, "md") || url_has_ext(url, "markdown") || cd_has_ext(
        content_disposition,
        "md",
    ) {
        return Some("md");
    }
    None
}

// ---------------------------------------------------------------------------
// File names
// ---------------------------------------------------------------------------

/// The value of a hexadecimal digit.
pub open spec fn hex_value(b: u8) -> Option<u8> {
    if 0x30 <= b && b <= 0x39 {
        Some((b - 0x30) as u8)
    } else if 0x61 <= b && b <= 0x66 {
        Some((b - 0x61 + 10) as u8)
    } else if 0x41 <= b && b <= 0x46 {
        Some((b - 0x41 + 10) as u8)
    } else {
        None
    }
}

pub fn from_hex(b: u8) -> (r: Option<u8>)
    ensures
        r == hex_value(b),
{
    if 0x30 <= b && b <= 0x39 {
        Some(b - 0x30)
    } else if 0x61 <= b && b <= 0x66 {
        Some(b - 0x61 + 10)
    } else if 0x41 <= b && b <= 0x46 {
        Some(b - 0x41 + 10)
    } else {
        None
    }
}

/// `%XY` becomes the byte `0xXY` and `+` a space; every other byte, and a `%`
/// not followed by two hexadecimal digits, stays.
pub open spec fn percent_decoded(b: Seq<u8>) -> Seq<u8>
    decreases b.len(),
{
    if b.len() == 0 {
        Seq::empty()
    } else if b[0] == 0x25 && 2 < b.len() && hex_value(b[1]) is Some && hex_value(b[2]) is Some {
        seq![(hex_value(b[1])->0 * 16 + hex_value(b[2])->0) as u8] + percent_decoded(b.skip(3))
    } else if b[0] == 0x2b {
        seq![0x20u8] + percent_decoded(b.skip(1))
    } else {
        seq![b[0]] + percent_decoded(b.skip(1))
    }
}

/// The percent-decoded bytes of `s`, read back lossily as UTF-8.
pub open spec fn url_decoded(s: Seq<char>) -> Seq<char> {
    utf8_lossy(percent_decoded(encode_utf8(s)))
}

pub fn urlencoding_decode(s: &str) -> (r: String)
    ensures
        r@ == url_decoded(s@),
{
    let bytes = s.as_bytes();
    let ghost b = bytes@;
    let n = bytes.len();
    let mut out: Vec<u8> = Vec::new();
    let mut i: usize = 0;
    assert(b.skip(0) =~= b);
    assert(out@ + b =~= b);
    while i < n
        invariant
            n == b.len(),
            b == bytes@,
            i <= n,
            out@ + percent_decoded(b.skip(i as int)) == percent_decoded(b),
        decreases n - i,
    {
        let ghost rest = b.skip(i as int);
        assert(rest[0] == b[i as int]);
        if bytes[i] == 0x25 && n - i > 2 {
            let hi = from_hex(bytes[i + 1]);
            let lo = from_hex(bytes[i + 2]);
            assert(rest[1] == b[i + 1] && rest[2] == b[i + 2]);
            if let (Some(a), Some(c)) = (hi, lo) {
                let v: u8 = a * 16 + c;
                out.push(v);
                assert(rest.skip(3) =~= b.skip(i + 3));
                i = i + 3;
                assert(out@ + percent_decoded(b.skip(i as int)) =~= percent_decoded(b));
                continue;
            }
        }
        assert(rest.skip(1) =~= b.skip(i + 1));
        if bytes[i] == 0x2b {
            out.push(0x20u8);
        } else {
            out.push(bytes[i]);
        }
        i = i + 1;
        assert(out@ + percent_decoded(b.skip(i as int)) =~= percent_decoded(b));
    }
    assert(out@ + percent_decoded(b.skip(n as int)) =~= out@);
    utf8_lossy_text(out.as_slice())
}

/// `char::is_control`: the general category Cc.
pub open spec fn is_control(c: char) -> bool {
    c <= '\u{1f}' || ('\u{7f}' <= c && c <= '\u{9f}')
}

/// Characters that file systems refuse in a name.
pub open spec fn forbidden_in_name(c: char) -> bool {
    ||| c == '<'
    ||| c == '>'
    ||| c == ':'
    ||| c == '"'
    ||| c == '/'
    ||| c == '\\'
    ||| c == '|'
    ||| c == '?'
    ||| c == '*'
}

pub open spec fn name_char(c: char) -> char {
    if forbidden_in_name(c) || is_control(c) {
        '_'
    } else {
        c
    }
}

/// Number of leading copies of `c`.
pub open spec fn lead_count(s: Seq<char>, c: char) -> nat
    decreases s.len(),
{
    if s.len() > 0 && s[0] == c {
        1 + lead_count(s.skip(1), c)
    } else {
        0
    }
}

/// Number of trailing copies of `c`.
pub open spec fn trail_count(s: Seq<char>, c: char) -> nat
    decreases s.len(),
{
    if s.len() > 0 && s.last() == c {
        1 + trail_count(s.drop_last(), c)
    } else {
        0
    }
}

/// `str::trim_matches(c)`.
pub open spec fn trim_char(s: Seq<char>, c: char) -> Seq<char> {
    let t = s.skip(lead_count(s, c) as int);
    t.take(t.len() - trail_count(t, c))
}

/// A safe file name: forbidden and control characters become `_`, white
/// space and dots are trimmed from both ends, an empty result becomes
/// `book`, and at most 120 characters are kept.
pub open spec fn sanitized(name: Seq<char>) -> Seq<char> {
    let t = trim_char(trim(name.map_values(|c: char| name_char(c))), '.');
    if t.len() == 0 {
        "book"@
    } else if t.len() <= 120 {
        t
    } else {
        t.take(120)
    }
}

fn count_lead(s: &[char], c: char) -> (r: usize)
    ensures
        r == lead_count(s@, c),
        r <= s@.len(),
{
    let mut i: usize = 0;
    assert(s@.skip(0) =~= s@);
    while i < s.len() && s[i] == c
        invariant
            i <= s@.len(),
            lead_count(s@, c) == i + lead_count(s@.skip(i as int), c),
        decreases s@.len() - i,
    {
        assert(s@.skip(i as int)[0] == s@[i as int]);
        assert(s@.skip(i as int).skip(1) =~= s@.skip(i + 1));
        i = i + 1;
    }
    if i < s.len() {
        assert(s@.skip(i as int)[0] == s@[i as int]);
    } else {
        assert(s@.skip(i as int).len() == 0);
    }
    i
}

fn count_trail(s: &[char], c: char) -> (r: usize)
    ensures
        r == trail_count(s@, c),
        r <= s@.len(),
{
    let n = s.len();
    let mut j: usize = n;
    assert(s@.take(n as int) =~= s@);
    while j > 0 && s[j - 1] == c
        invariant
            j <= n,
            n == s@.len(),
            trail_count(s@, c) == (n - j) + trail_count(s@.take(j as int), c),
        decreases j,
    {
        assert(s@.take(j as int).last() == s@[j - 1]);
        assert(s@.take(j as int).drop_last() =~= s@.take(j - 1));
        j = j - 1;
    }
    if j > 0 {
        assert(s@.take(j as int).last() == s@[j - 1]);
    }
    n - j
}

pub fn sanitize_filename(name: &str) -> (r: String)
    ensures
        r@ == sanitized(name@),
{
    let chars = chars_of(name);
    let mut mapped: Vec<char> = Vec::new();
    let mut i: usize = 0;
    while i < chars.len()
        invariant
            i <= chars@.len(),
            chars@ == name@,
            mapped@ == name@.take(i as int).map_values(|c: char| name_char(c)),
        decreases chars@.len() - i,
    {
        let c = chars[i];
        let m = if c == '<' || c == '>' || c == ':' || c == '"' || c == '/' || c == '\\' || c
            == '|' || c == '?' || c == '*' || c <= '\u{1f}' || ('\u{7f}' <= c && c <= '\u{9f}') {
            '_'
        } else {
            c
        };
        mapped.push(m);
        i = i + 1;
        assert(mapped@ =~= name@.take(i as int).map_values(|c: char| name_char(c)));
    }
    assert(name@.take(name@.len() as int) =~= name@);
    let trimmed = trim_chars(mapped.as_slice());
    let a = count_lead(trimmed.as_slice(), '.');
    let t = slice_tail(trimmed.as_slice(), a);
    let b = count_trail(t.as_slice(), '.');
    let keep = t.len() - b;
    if keep == 0 {
        let r = String::from_str("book");
        proof {
            reveal_strlit("book");
        }
        return r;
    }
    let end = if keep <= 120 {
        keep
    } else {
        120
    };
    let mut r = String::new();
    let mut k: usize = 0;
    while k < end
        invariant
            k <= end <= t@.len(),
            r@ == t@.take(k as int),
        decreases end - k,
    {
        push_char(&mut r, t[k]);
        k = k + 1;
        assert(r@ =~= t@.take(k as int));
    }
    proof {
        let tt = t@.take(t@.len() - b);
        assert(tt.len() == keep);
        if keep <= 120 {
            assert(r@ =~= tt);
        } else {
            assert(r@ =~= tt.take(120));
        }
    }
    r
}

/// A character that may stand in a saved file name.
pub open spec fn safe_name_char(c: char) -> bool {
    !forbidden_in_name(c) && !is_control(c)
}

proof fn lemma_lead_count(s: Seq<char>, c: char)
    ensures
        lead_count(s, c) <= s.len(),
    decreases s.len(),
{
    if s.len() > 0 && s[0] == c {
        lemma_lead_count(s.skip(1), c);
    }
}

proof fn lemma_trail_count(s: Seq<char>, c: char)
    ensures
        trail_count(s, c) <= s.len(),
    decreases s.len(),
{
    if s.len() > 0 && s.last() == c {
        lemma_trail_count(s.drop_last(), c);
    }
}

/// A sanitized name is never empty, holds at most 120 characters, and holds
/// no character that a file system refuses or that is a control character.
pub proof fn lemma_sanitized_safe(name: Seq<char>)
    ensures
        1 <= sanitized(name).len() <= 120,
        forall|i: int| 0 <= i < sanitized(name).len() ==> safe_name_char(#[trigger] sanitized(name)[i]),
{
    let m = name.map_values(|c: char| name_char(c));
    assert forall|j: int| 0 <= j < m.len() implies safe_name_char(#[trigger] m[j]) by {
        assert(m[j] == name_char(name[j]));
    }
    crate::text::lemma_lead_ws(m);
    let ts = m.skip(crate::text::lead_ws(m) as int);
    crate::text::lemma_trail_ws(ts);
    let a = trim(m);
    assert(a == ts.take(ts.len() - crate::text::trail_ws(ts)));
    assert forall|i: int| 0 <= i < a.len() implies safe_name_char(#[trigger] a[i]) by {
        assert(a[i] == m[i + crate::text::lead_ws(m)]);
    }
    lemma_lead_count(a, '.');
    let t1 = a.skip(lead_count(a, '.') as int);
    lemma_trail_count(t1, '.');
    let t = trim_char(a, '.');
    assert forall|i: int| 0 <= i < t.len() implies safe_name_char(#[trigger] t[i]) by {
        assert(t[i] == a[i + lead_count(a, '.')]);
    }
    if t.len() == 0 {
        reveal_strlit("book");
        assert forall|i: int| 0 <= i < sanitized(name).len() implies safe_name_char(
            #[trigger] sanitized(name)[i],
        ) by {
            assert(sanitized(name) == "book"@);
        }
    } else if t.len() > 120 {
        assert forall|i: int| 0 <= i < sanitized(name).len() implies safe_name_char(
            #[trigger] sanitized(name)[i],
        ) by {
            assert(sanitized(name)[i] == t[i]);
        }
    }
}

/// The last `/`-separated segment of a path.
pub open spec fn last_segment(p: Seq<char>) -> Seq<char> {
    split_by(p, '/').last()
}

/// The name a download is saved under: the URL's last path segment,
/// percent-decoded, with `.ext` added unless it already ends so, sanitized.
pub open spec fn download_file_name(url: Seq<char>, ext: Seq<char>) -> Seq<char> {
    let name = url_decoded(last_segment(url_path(url)));
    if has_suffix(ascii_lower(name), seq!['.'] + ext) {
        sanitized(name)
    } else {
        sanitized(name + seq!['.'] + ext)
    }
}

/// The name a download is saved under is always a safe file name.
pub proof fn lemma_download_file_name_safe(url: Seq<char>, ext: Seq<char>)
    ensures
        1 <= download_file_name(url, ext).len() <= 120,
        forall|i: int|
            0 <= i < download_file_name(url, ext).len() ==> safe_name_char(
                #[trigger] download_file_name(url, ext)[i],
            ),
{
    let name = url_decoded(last_segment(url_path(url)));
    lemma_sanitized_safe(name);
    lemma_sanitized_safe(name + seq!['.'] + ext);
}

pub fn filename_from_url(url: &str, ext: &str) -> (r: String)
    ensures
        r@ == download_file_name(url@, ext@),
{
    let path = url_path_chars(url);
    let pieces = split_chars(path.as_slice(), '/');
    let ghost mv = pieces@.map_values(|v: Vec<char>| v@);
    assert(mv.len() == pieces@.len());
    let last = pieces.len() - 1;
    assert(mv[last as int] == pieces@[last as int]@);
    let seg = string_of(pieces[last].as_slice());
    let name = urlencoding_decode(seg.as_str());
    let lower = lower_chars(chars_of(name.as_str()).as_slice());
    let d = dotted(ext);
    if ends_with(lower.as_slice(), d.as_slice()) {
        sanitize_filename(name.as_str())
    } else {
        let mut full = name;
        let mut k: usize = 0;
        while k < d.len()
            invariant
                k <= d@.len(),
                full@ == url_decoded(last_segment(url_path(url@))) + d@.take(k as int),
            decreases d@.len() - k,
        {
            push_char(&mut full, d[k]);
            k = k + 1;
            assert(full@ =~= url_decoded(last_segment(url_path(url@))) + d@.take(k as int));
        }
        assert(d@.take(d@.len() as int) =~= d@);
        assert(full@ =~= url_decoded(last_segment(url_path(url@))) + seq!['.'] + ext@);
        sanitize_filename(full.as_str())
    }
}

/// The `n`-th alternative name for a file that already exists:
/// `{stem}-{n}.{ext}`, with `book` and `bin` where the name has none.
pub open spec fn numbered_name(filename: Seq<char>, n: nat) -> Seq<char> {
    let stem = match file_stem(filename) {
        Some(s) => s,
        None => "book"@,
    };
    let ext = match extension(filename) {
        Some(e) => e,
        None => "bin"@,
    };
    stem + seq!['-'] + decimal(n) + seq!['.'] + ext
}

pub fn numbered_file_name(filename: &str, n: usize) -> (r: String)
    ensures
        r@ == numbered_name(filename@, n as nat),
{
    let stem = match path_file_stem(filename) {
        Some(s) => s,
        None => {
            proof {
                reveal_strlit("book");
            }
            String::from_str("book")
        },
    };
    let ext = match path_extension(filename) {
        Some(e) => e,
        None => {
            proof {
                reveal_strlit("bin");
            }
            String::from_str("bin")
        },
    };
    let mut r = stem;
    push_char(&mut r, '-');
    push_decimal(&mut r, n);
    push_char(&mut r, '.');
    let ghost before = r@;
    r.append(ext.as_str());
    proof {
        let st = match file_stem(filename@) {
            Some(s) => s,
            None => "book"@,
        };
        let ex = match extension(filename@) {
            Some(e) => e,
            None => "bin"@,
        };
        assert(ext@ == ex);
        assert(r@ =~= st + seq!['-'] + decimal(n as nat) + seq!['.'] + ex);
    }
    r
}

// ---------------------------------------------------------------------------
// Links on a product page
// ---------------------------------------------------------------------------

/// `Url::parse(base)` and then `join(href)`, as text (`None` where either fails).
pub uninterp spec fn url_joined(base: Seq<char>, href: Seq<char>) -> Option<Seq<char>>;

/// `url::Url::parse(base)`, then `Url::join(href)` and `to_string`; the result
/// is named by `url_joined`.
#[verifier::external_body]
fn join_url(base: &str, href: &str) -> (r: Option<String>)
    ensures
        r matches Some(s) ==> url_joined(base@, href@) == Some(s@),
        r is None ==> url_joined(base@, href@) is None,
{
    let b = url::Url::parse(base).ok()?;
    b.join(href).ok().map(|u| u.to_string())
}

/// An absolute `http(s)` link stays as it is; another is joined onto the page's URL.
pub open spec fn resolved(base: Seq<char>, href: Seq<char>) -> Option<Seq<char>> {
    if has_prefix(href, "http://"@) || has_prefix(href, "https://"@) {
        Some(href)
    } else {
        url_joined(base, href)
    }
}

fn has_prefix_lit(v: &Vec<char>, lit: &str) -> (r: bool)
    ensures
        r == has_prefix(v@, lit@),
{
    let p = chars_of(lit);
    starts_with(v.as_slice(), p.as_slice())
}

pub fn resolve_url(base: &str, href: &str) -> (r: Option<String>)
    ensures
        r matches Some(s) ==> resolved(base@, href@) == Some(s@),
        r is None ==> resolved(base@, href@) is None,
{
    let h = chars_of(href);
    if has_prefix_lit(&h, "http://") || has_prefix_lit(&h, "https://") {
        Some(href.to_string())
    } else {
        join_url(base, href)
    }
}

/// `href` attributes, quoted either way.
pub open spec fn href_pattern() -> Seq<char> {
    "(?i)href\\s*=\\s*[\"']([^\"']+)[\"']"@
}

fn href_pattern_str() -> (p: &'static str)
    ensures
        p@ == href_pattern(),
{
    "(?i)href\\s*=\\s*[\"']([^\"']+)[\"']"
}

/// A lower-cased link that names a book file.
pub open spec fn book_ext_hint(l: Seq<char>) -> bool {
    ||| contains_seq(l, ".epub"@)
    ||| contains_seq(l, ".fb2"@)
    ||| contains_seq(l, ".fb2.zip"@)
    ||| contains_seq(l, ".txt"@)
    ||| contains_seq(l, ".md"@)
}

/// A lower-cased link that looks like a download.
pub open spec fn download_hint(l: Seq<char>) -> bool {
    ||| contains_seq(l, "download"@)
    ||| contains_seq(l, "getfile"@)
    ||| contains_seq(l, "/dl/"@)
    ||| contains_seq(l, "attachment"@)
}

/// A link worth trying: not empty, not an anchor or a mail address, and
/// naming a book file or a download.
pub open spec fn link_wanted(href: Seq<char>) -> bool {
    &&& href.len() > 0
    &&& !has_prefix(href, seq!['#'])
    &&& !has_prefix(href, "mailto:"@)
    &&& book_ext_hint(ascii_lower(href)) || download_hint(ascii_lower(href))
}

fn link_wanted_exec(href: &str) -> (r: bool)
    ensures
        r == link_wanted(href@),
{
    let h = chars_of(href);
    if h.len() == 0 || h[0] == '#' || has_prefix_lit(&h, "mailto:") {
        proof {
            if h@.len() > 0 && h@[0] == '#' {
                assert(h@.subrange(0, 1) =~= seq!['#']);
            }
        }
        return false;
    }
    proof {
        assert(h@.subrange(0, 1)[0] == h@[0]);
    }
    let l = lower_chars(h.as_slice());
    has_lit(&l, ".epub") || has_lit(&l, ".fb2") || has_lit(&l, ".fb2.zip") || has_lit(&l, ".txt")
        || has_lit(&l, ".md") || has_lit(&l, "download") || has_lit(&l, "getfile") || has_lit(
        &l,
        "/dl/",
    ) || has_lit(&l, "attachment")
}

/// The distinct absolute links of the first `n` matches, in page order.
pub open spec fn link_candidates(html: Seq<char>, ms: Seq<Spans>, base: Seq<char>, n: int) -> Seq<
    Seq<char>,
>
    decreases n,
{
    if n <= 0 {
        Seq::empty()
    } else {
        let acc = link_candidates(html, ms, base, n - 1);
        let href = group_or_empty(html, ms[n - 1], 1);
        if !link_wanted(href) {
            acc
        } else {
            match resolved(base, href) {
                Some(abs) => if acc.contains(abs) {
                    acc
                } else {
                    acc.push(abs)
                },
                None => acc,
            }
        }
    }
}

/// EPUB links first, then FB2 links, then the rest.
pub open spec fn link_rank(u: Seq<char>) -> int {
    let l = ascii_lower(u);
    if contains_seq(l, ".epub"@) {
        0
    } else if contains_seq(l, ".fb2"@) {
        1
    } else {
        2
    }
}

pub open spec fn rank_is(r: int) -> spec_fn(Seq<char>) -> bool {
    |u: Seq<char>| link_rank(u) == r
}

/// A stable sort by `link_rank`.
pub open spec fn ranked(s: Seq<Seq<char>>) -> Seq<Seq<char>> {
    s.filter(rank_is(0)) + s.filter(rank_is(1)) + s.filter(rank_is(2))
}

/// The book links of a page, resolved against its URL, without repeats,
/// EPUB before FB2 before the rest.
pub open spec fn book_links(html: Seq<char>, base: Seq<char>) -> Seq<Seq<char>> {
    match regex_spans(href_pattern(), html) {
        Some(ms) => ranked(link_candidates(html, ms, base, ms.len() as int)),
        None => Seq::empty(),
    }
}

fn contains_string(v: &Vec<String>, s: &String) -> (r: bool)
    ensures
        r == strings_view(v@).contains(s@),
{
    let ghost sv = strings_view(v@);
    let mut i: usize = 0;
    while i < v.len()
        invariant
            i <= v@.len(),
            sv == strings_view(v@),
            forall|j: int| 0 <= j < i ==> sv[j] != s@,
        decreases v@.len() - i,
    {
        if str_eq(v[i].as_str(), s.as_str()) {
            assert(sv[i as int] == s@);
            return true;
        }
        i = i + 1;
    }
    false
}

fn link_rank_exec(u: &String) -> (r: u8)
    ensures
        r == link_rank(u@),
{
    let l = lower_chars(chars_of(u.as_str()).as_slice());
    if has_lit(&l, ".epub") {
        0
    } else if has_lit(&l, ".fb2") {
        1
    } else {
        2
    }
}

/// Appends the links of `v` whose rank is `rank`, in order.
fn push_ranked(out: &mut Vec<String>, v: &Vec<String>, rank: u8)
    ensures
        strings_view(final(out)@) == strings_view(old(out)@) + strings_view(v@).filter(
            rank_is(rank as int),
        ),
{
    let ghost sv = strings_view(v@);
    let ghost start = strings_view(out@);
    let mut i: usize = 0;
    proof {
        reveal(Seq::filter);
        assert(sv.take(0).filter(rank_is(rank as int)) =~= Seq::<Seq<char>>::empty());
        assert(strings_view(out@) =~= start + sv.take(0).filter(rank_is(rank as int)));
    }
    while i < v.len()
        invariant
            i <= v@.len(),
            sv == strings_view(v@),
            strings_view(out@) == start + sv.take(i as int).filter(rank_is(rank as int)),
        decreases v@.len() - i,
    {
        let ghost before = out@;
        proof {
            reveal(Seq::filter);
            assert(sv.take(i + 1).drop_last() =~= sv.take(i as int));
            assert(sv.take(i + 1).last() == v@[i as int]@);
        }
        if link_rank_exec(&v[i]) == rank {
            out.push(v[i].clone());
            proof {
                assert(strings_view(out@) =~= strings_view(before).push(v@[i as int]@));
            }
        }
        i = i + 1;
        proof {
            assert(strings_view(out@) =~= start + sv.take(i as int).filter(rank_is(rank as int)));
        }
    }
    proof {
        assert(sv.take(v@.len() as int) =~= sv);
    }
}

fn rank_links(v: &Vec<String>) -> (r: Vec<String>)
    ensures
        strings_view(r@) == ranked(strings_view(v@)),
{
    let mut out: Vec<String> = Vec::new();
    assert(strings_view(out@) =~= Seq::<Seq<char>>::empty());
    push_ranked(&mut out, v, 0);
    push_ranked(&mut out, v, 1);
    push_ranked(&mut out, v, 2);
    assert(strings_view(out@) =~= ranked(strings_view(v@)));
    out
}

/// Filtering keeps a sequence free of repeats.
proof fn lemma_filter_no_duplicates(s: Seq<Seq<char>>, p: spec_fn(Seq<char>) -> bool)
    requires
        s.no_duplicates(),
    ensures
        s.filter(p).no_duplicates(),
    decreases s.len(),
{
    reveal(Seq::filter);
    if s.len() > 0 {
        let init = s.drop_last();
        assert forall|i: int, j: int|
            0 <= i < init.len() && 0 <= j < init.len() && i != j implies init[i] != init[j] by {
            assert(init[i] == s[i] && init[j] == s[j]);
        }
        lemma_filter_no_duplicates(init, p);
        let f = init.filter(p);
        if p(s.last()) {
            if f.contains(s.last()) {
                init.lemma_filter_contains_rev(p, s.last());
                let k = choose|k: int| 0 <= k < init.len() && init[k] == s.last();
                assert(s[k] == s[s.len() - 1]);
            }
            let g = f.push(s.last());
            assert forall|i: int, j: int|
                0 <= i < g.len() && 0 <= j < g.len() && i != j implies g[i] != g[j] by {
                if i < f.len() && j < f.len() {
                    assert(g[i] == f[i] && g[j] == f[j]);
                } else if i < f.len() {
                    assert(g[i] == f[i]);
                    assert(f.contains(f[i]));
                } else if j < f.len() {
                    assert(g[j] == f[j]);
                    assert(f.contains(f[j]));
                }
            }
        }
    }
}

/// Ranking keeps exactly the links it was given, without adding repeats, and
/// orders them by rank.
pub proof fn lemma_ranked(s: Seq<Seq<char>>)
    requires
        s.no_duplicates(),
    ensures
        ranked(s).no_duplicates(),
        forall|i: int, j: int|
            0 <= i < j < ranked(s).len() ==> link_rank(#[trigger] ranked(s)[i]) <= link_rank(
                #[trigger] ranked(s)[j],
            ),
        forall|u: Seq<char>| ranked(s).contains(u) <==> s.contains(u),
{
    broadcast use vstd::seq_lib::group_filter_ensures;

    let a = s.filter(rank_is(0));
    let b = s.filter(rank_is(1));
    let c = s.filter(rank_is(2));
    lemma_filter_no_duplicates(s, rank_is(0));
    lemma_filter_no_duplicates(s, rank_is(1));
    lemma_filter_no_duplicates(s, rank_is(2));
    assert forall|i: int| 0 <= i < a.len() implies link_rank(#[trigger] a[i]) == 0 by {
        assert(rank_is(0)(a[i]));
    }
    assert forall|i: int| 0 <= i < b.len() implies link_rank(#[trigger] b[i]) == 1 by {
        assert(rank_is(1)(b[i]));
    }
    assert forall|i: int| 0 <= i < c.len() implies link_rank(#[trigger] c[i]) == 2 by {
        assert(rank_is(2)(c[i]));
    }
    vstd::seq_lib::lemma_no_dup_in_concat(a, b);
    vstd::seq_lib::lemma_no_dup_in_concat(a + b, c);
    let r = a + b + c;
    assert(r == ranked(s));
    assert forall|i: int| 0 <= i < r.len() implies #[trigger] link_rank(r[i]) == (if i < a.len() {
        0int
    } else if i < a.len() + b.len() {
        1int
    } else {
        2int
    }) by {
        if i < a.len() {
            assert(r[i] == a[i]);
        } else if i < a.len() + b.len() {
            assert(r[i] == b[i - a.len()]);
        } else {
            assert(r[i] == c[i - a.len() - b.len()]);
        }
    }
    assert forall|u: Seq<char>| r.contains(u) <==> s.contains(u) by {
        if r.contains(u) {
            let i = choose|i: int| 0 <= i < r.len() && r[i] == u;
            if i < a.len() {
                assert(a.contains(u));
                s.lemma_filter_contains_rev(rank_is(0), u);
            } else if i < a.len() + b.len() {
                assert(b[i - a.len()] == u);
                assert(b.contains(u));
                s.lemma_filter_contains_rev(rank_is(1), u);
            } else {
                assert(c[i - a.len() - b.len()] == u);
                assert(c.contains(u));
                s.lemma_filter_contains_rev(rank_is(2), u);
            }
        }
        if s.contains(u) {
            let k = choose|k: int| 0 <= k < s.len() && s[k] == u;
            if link_rank(u) == 0 {
                assert(rank_is(0)(s[k]));
                assert(a.contains(u));
                let i = choose|i: int| 0 <= i < a.len() && a[i] == u;
                assert(r[i] == u);
            } else if link_rank(u) == 1 {
                assert(rank_is(1)(s[k]));
                assert(b.contains(u));
                let i = choose|i: int| 0 <= i < b.len() && b[i] == u;
                assert(r[a.len() + i] == u);
            } else {
                assert(rank_is(2)(s[k]));
                assert(c.contains(u));
                let i = choose|i: int| 0 <= i < c.len() && c[i] == u;
                assert(r[a.len() + b.len() + i] == u);
            }
        }
    }
}

/// The candidates gathered from a page never repeat.
proof fn lemma_candidates_no_duplicates(html: Seq<char>, ms: Seq<Spans>, base: Seq<char>, n: int)
    ensures
        link_candidates(html, ms, base, n).no_duplicates(),
    decreases n,
{
    if n > 0 {
        lemma_candidates_no_duplicates(html, ms, base, n - 1);
        let acc = link_candidates(html, ms, base, n - 1);
        let href = group_or_empty(html, ms[n - 1], 1);
        if link_wanted(href) {
            if let Some(abs) = resolved(base, href) {
                if !acc.contains(abs) {
                    let g = acc.push(abs);
                    assert forall|i: int, j: int|
                        0 <= i < g.len() && 0 <= j < g.len() && i != j implies g[i] != g[j] by {
                        if i < acc.len() && j < acc.len() {
                            assert(g[i] == acc[i] && g[j] == acc[j]);
                        } else if i < acc.len() {
                            assert(g[i] == acc[i]);
                        } else if j < acc.len() {
                            assert(g[j] == acc[j]);
                        }
                    }
                }
            }
        }
    }
}

/// The links found on a page never repeat, and EPUB links come before FB2
/// links, which come before the rest.
pub proof fn lemma_book_links_distinct_and_ranked(html: Seq<char>, base: Seq<char>)
    ensures
        book_links(html, base).no_duplicates(),
        forall|i: int, j: int|
            0 <= i < j < book_links(html, base).len() ==> link_rank(
                #[trigger] book_links(html, base)[i],
            ) <= link_rank(#[trigger] book_links(html, base)[j]),
{
    if let Some(ms) = regex_spans(href_pattern(), html) {
        lemma_candidates_no_duplicates(html, ms, base, ms.len() as int);
        lemma_ranked(link_candidates(html, ms, base, ms.len() as int));
    }
}

/// The book links of the matches `ms` of `href_pattern` in `html`, resolved
/// against `base_url`, without repeats, EPUB before FB2 before the rest.
pub fn links_from_matches(html: &str, ms: &Vec<Vec<Option<(usize, usize)>>>, base_url: &str) -> (r:
    Vec<String>)
    requires
        spans_ok(html@, spans_view(ms@)),
    ensures
        strings_view(r@) == ranked(
            link_candidates(html@, spans_view(ms@), base_url@, ms@.len() as int),
        ),
{
    let ghost m = spans_view(ms@);
    let mut out: Vec<String> = Vec::new();
    let mut i: usize = 0;
    assert(strings_view(out@) =~= Seq::<Seq<char>>::empty());
    while i < ms.len()
        invariant
            i <= ms@.len(),
            m == spans_view(ms@),
            spans_ok(html@, m),
            strings_view(out@) == link_candidates(html@, m, base_url@, i as int),
        decreases ms@.len() - i,
    {
        assert(m[i as int] == ms@[i as int]@);
        let href = group_or_empty_str(html, ms, i, 1);
        if link_wanted_exec(href) {
            if let Some(abs) = resolve_url(base_url, href) {
                if !contains_string(&out, &abs) {
                    let ghost before = out@;
                    out.push(abs);
                    proof {
                        assert(strings_view(out@) =~= strings_view(before).push(abs@));
                    }
                }
            }
        }
        i = i + 1;
    }
    rank_links(&out)
}

pub fn extract_book_links(html: &str, base_url: &str) -> (r: Vec<String>)
    ensures
        strings_view(r@) == book_links(html@, base_url@),
{
    match regex_captures(href_pattern_str(), html) {
        Some(ms) => links_from_matches(html, &ms, base_url),
        None => {
            let e: Vec<String> = Vec::new();
            assert(strings_view(e@) =~= Seq::<Seq<char>>::empty());
            e
        },
    }
}

// ---------------------------------------------------------------------------
// Decisions of an import
// ---------------------------------------------------------------------------

/// A result that leaves the link to the system browser with `message`.
pub open spec fn is_refusal(r: ImportFromUrlResult, message: Seq<char>) -> bool {
    &&& !r.success
    &&& r.open_book_id is None
    &&& r.title is None
    &&& r.path is None
    &&& r.message@ == message
    &&& r.open_externally
}

fn refusal(message: &str) -> (r: ImportFromUrlResult)
    ensures
        is_refusal(r, message@),
{
    ImportFromUrlResult {
        success: false,
        open_book_id: None,
        title: None,
        path: None,
        message: message.to_string(),
        open_externally: true,
    }
}

/// What to do with a pasted link before anything is fetched.
pub enum UrlCheck {
    /// Fetch this (trimmed) URL.
    Fetch(String),
    /// Do not fetch; answer with this result.
    Refuse(ImportFromUrlResult),
}

/// Only `http(s)` links are fetched, and payment or donation pages are not.
pub open spec fn url_check_ok(url: Seq<char>, r: UrlCheck) -> bool {
    let t = trim(url);
    if !(has_prefix(t, "http://"@) || has_prefix(t, "https://"@)) {
        r matches UrlCheck::Refuse(x) && is_refusal(x, "Only http(s) links can be downloaded."@)
    } else if non_book_url(t) {
        r matches UrlCheck::Refuse(x) && is_refusal(x, "Link opened in the system browser."@)
    } else {
        r matches UrlCheck::Fetch(u) && u@ == t
    }
}

pub fn check_import_url(url: &str) -> (r: UrlCheck)
    ensures
        url_check_ok(url@, r),
{
    let t = string_of(trim_chars(chars_of(url).as_slice()).as_slice());
    let tv = chars_of(t.as_str());
    if !(has_prefix_lit(&tv, "http://") || has_prefix_lit(&tv, "https://")) {
        return UrlCheck::Refuse(refusal("Only http(s) links can be downloaded."));
    }
    if is_non_book_url(t.as_str()) {
        return UrlCheck::Refuse(refusal("Link opened in the system browser."));
    }
    UrlCheck::Fetch(t)
}

/// The answer to an unsuccessful HTTP status.
pub fn http_error_result(status: u16) -> (r: ImportFromUrlResult)
    ensures
        is_refusal(r, "Server returned HTTP "@ + decimal(status as nat) + "."@),
{
    let mut m = String::from_str("Server returned HTTP ");
    proof {
        reveal_strlit("Server returned HTTP ");
        reveal_strlit(".");
    }
    push_decimal(&mut m, status as usize);
    push_char(&mut m, '.');
    assert(m@ =~= "Server returned HTTP "@ + decimal(status as nat) + "."@);
    ImportFromUrlResult {
        success: false,
        open_book_id: None,
        title: None,
        path: None,
        message: m,
        open_externally: true,
    }
}

/// The extension of a fetched body, from the raw `Content-Type` (compared
/// lower-cased), the final URL, the `Content-Disposition` and the bytes.
pub fn candidate_extension(final_url: &str, content_type: &str, content_disposition: &str, bytes: &[u8]) -> (r:
    Option<&'static str>)
    ensures
        r matches Some(e) ==> book_extension(
            final_url@,
            ascii_lower(content_type@),
            content_disposition@,
            bytes@,
        ) == Some(e@),
        r is None ==> book_extension(
            final_url@,
            ascii_lower(content_type@),
            content_disposition@,
            bytes@,
        ) is None,
{
    let ct = string_of(lower_chars(chars_of(content_type).as_slice()).as_slice());
    detect_book_extension(final_url, ct.as_str(), content_disposition, bytes)
}

/// What a fetched link turned out to be.
pub enum Fetched {
    /// A book file with this extension: save it.
    Book(&'static str),
    /// A web page: try these links in turn.
    Page(Vec<String>),
    /// Neither.
    Other,
}

/// A book by its bytes or headers; else a page by its `Content-Type` or its
/// first bytes, with the book links found in it; else neither.
pub open spec fn fetched_ok(
    final_url: Seq<char>,
    content_type: Seq<char>,
    cd: Seq<char>,
    bytes: Seq<u8>,
    r: Fetched,
) -> bool {
    let ct = ascii_lower(content_type);
    match book_extension(final_url, ct, cd, bytes) {
        Some(e) => r matches Fetched::Book(x) && x@ == e,
        None => if contains_seq(ct, "text/html"@) || html_like(bytes) {
            r matches Fetched::Page(links) && strings_view(links@) == book_links(
                utf8_lossy(bytes),
                final_url,
            )
        } else {
            r is Other
        },
    }
}

pub fn classify_response(final_url: &str, content_type: &str, content_disposition: &str, bytes: &[u8]) -> (r:
    Fetched)
    ensures
        fetched_ok(final_url@, content_type@, content_disposition@, bytes@, r),
{
    if let Some(e) = candidate_extension(final_url, content_type, content_disposition, bytes) {
        return Fetched::Book(e);
    }
    let ct = lower_chars(chars_of(content_type).as_slice());
    if has_lit(&ct, "text/html") || looks_like_html(bytes) {
        let html = utf8_lossy_text(bytes);
        Fetched::Page(extract_book_links(html.as_str(), final_url))
    } else {
        Fetched::Other
    }
}

/// A page on which no link led to a book.
pub fn page_without_books_result() -> (r: ImportFromUrlResult)
    ensures
        is_refusal(r, "No downloadable book file found on the page. Opening in browser."@),
{
    refusal("No downloadable book file found on the page. Opening in browser.")
}

/// A link that is neither a book nor a page.
pub fn unsupported_link_result() -> (r: ImportFromUrlResult)
    ensures
        is_refusal(r, "This link is not a supported book file."@),
{
    refusal("This link is not a supported book file.")
}

/// A book saved at `path`, not yet in the catalog.
pub fn saved_book_result(path: &str) -> (r: ImportFromUrlResult)
    ensures
        r.success,
        r.open_book_id is None,
        r.title is None,
        r.path.deep_view() == Some(path@),
        r.message@ == "Downloaded to "@ + path@,
        !r.open_externally,
{
    let mut m = String::from_str("Downloaded to ");
    proof {
        reveal_strlit("Downloaded to ");
    }
    m.append(path);
    ImportFromUrlResult {
        success: true,
        open_book_id: None,
        title: None,
        path: Some(path.to_string()),
        message: m,
        open_externally: false,
    }
}

/// The name tried at the `n`-th attempt to save a file that may already exist:
/// first the name itself, then `{stem}-2.{ext}` up to `{stem}-999.{ext}`;
/// after that none (a random name is used).
pub open spec fn name_attempt_of(filename: Seq<char>, n: nat) -> Option<Seq<char>> {
    if n == 1 {
        Some(filename)
    } else if 2 <= n < 1000 {
        Some(numbered_name(filename, n))
    } else {
        None
    }
}

pub fn name_attempt(filename: &str, n: usize) -> (r: Option<String>)
    ensures
        r.deep_view() == name_attempt_of(filename@, n as nat),
{
    if n == 1 {
        Some(filename.to_string())
    } else if 2 <= n && n < 1000 {
        Some(numbered_file_name(filename, n))
    } else {
        None
    }
}

/// What to do after trying one of a page's links.
pub enum PageStep {
    /// The link gave a book: answer with this result.
    Done(ImportFromUrlResult),
    /// Try the link at this index.
    Next(usize),
    /// No link gave a book.
    GiveUp(ImportFromUrlResult),
}

/// After trying link `index` of `count`: a saved book ends the search; else
/// the next link is tried, and after the last one the page is left to the
/// browser.
pub open spec fn page_step_ok(index: nat, count: nat, outcome: Option<ImportFromUrlResult>, r: PageStep) -> bool {
    if outcome matches Some(x) && x.success {
        r matches PageStep::Done(y) && y == outcome->0
    } else if index + 1 < count {
        r matches PageStep::Next(k) && k == index + 1
    } else {
        r matches PageStep::GiveUp(y) && is_refusal(
            y,
            "No downloadable book file found on the page. Opening in browser."@,
        )
    }
}

pub fn page_step(index: usize, count: usize, outcome: Option<ImportFromUrlResult>) -> (r: PageStep)
    ensures
        page_step_ok(index as nat, count as nat, outcome, r),
{
    match outcome {
        Some(x) => {
            if x.success {
                return PageStep::Done(x);
            }
        },
        None => {},
    }
    if index < count && count - index > 1 {
        PageStep::Next(index + 1)
    } else {
        PageStep::GiveUp(page_without_books_result())
    }
}

/// What follows a download.
pub enum AfterDownload {
    /// Answer with this result.
    Finished(ImportFromUrlResult),
    /// Add the file at this path to the catalog.
    Index(String),
}

/// A failed download is answered as it stands (without book id or title); a
/// successful one without a path is an error; otherwise its file is indexed.
pub open spec fn after_download_ok(d: ImportFromUrlResult, r: AfterDownload) -> bool {
    if !d.success {
        r matches AfterDownload::Finished(x) && !x.success && x.open_book_id is None && x.title
            is None && x.path.deep_view() == d.path.deep_view() && x.message@ == d.message@
            && x.open_externally == d.open_externally
    } else {
        match d.path {
            None => r matches AfterDownload::Finished(x) && !x.success && x.open_book_id is None
                && x.title is None && x.path is None && x.message@
                == "Download succeeded but path is missing."@ && !x.open_externally,
            Some(p) => r matches AfterDownload::Index(q) && q@ == p@,
        }
    }
}

pub fn after_download(d: ImportFromUrlResult) -> (r: AfterDownload)
    ensures
        after_download_ok(d, r),
{
    if !d.success {
        return AfterDownload::Finished(
            ImportFromUrlResult {
                success: false,
                open_book_id: None,
                title: None,
                path: d.path,
                message: d.message,
                open_externally: d.open_externally,
            },
        );
    }
    match d.path {
        None => AfterDownload::Finished(
            ImportFromUrlResult {
                success: false,
                open_book_id: None,
                title: None,
                path: None,
                message: String::from_str("Download succeeded but path is missing."),
                open_externally: false,
            },
        ),
        Some(p) => AfterDownload::Index(p),
    }
}

/// A downloaded file whose format is not known.
pub fn unreadable_download_result(path: String) -> (r: ImportFromUrlResult)
    ensures
        !r.success,
        r.open_book_id is None,
        r.title is None,
        r.path.deep_view() == Some(path@),
        r.message@ == "Downloaded file is not a supported book format."@,
        !r.open_externally,
{
    ImportFromUrlResult {
        success: false,
        open_book_id: None,
        title: None,
        path: Some(path),
        message: String::from_str("Downloaded file is not a supported book format."),
        open_externally: false,
    }
}

/// A downloaded book added to the catalog under `id` with `title`.
pub fn imported_result(id: String, title: String, path: String) -> (r: ImportFromUrlResult)
    ensures
        r.success,
        r.open_book_id.deep_view() == Some(id@),
        r.title.deep_view() == Some(title@),
        r.path.deep_view() == Some(path@),
        r.message@ == "Book added to library: "@ + title@,
        !r.open_externally,
{
    let mut m = String::from_str("Book added to library: ");
    proof {
        reveal_strlit("Book added to library: ");
    }
    m.append(title.as_str());
    ImportFromUrlResult {
        success: true,
        open_book_id: Some(id),
        title: Some(title),
        path: Some(path),
        message: m,
        open_externally: false,
    }
}

/// The format of a downloaded file, by its extension.
pub fn format_for_path(path: &str) -> (r: Option<BookFormat>)
    ensures
        r == format_of_path(path@),
{
    detect_format(path)
}

} // verus!
