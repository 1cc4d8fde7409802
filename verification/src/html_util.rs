//! HTML helpers shared by the EPUB, FB2 and text readers.
use crate::pattern::{
    group_or_empty, group_or_empty_str, byte_slice, slice_str, whole, lemma_byte_slice_all, group, group_text, regex_captures, regex_spans, spans_ok, spans_view, Spans,
};
use crate::text::{
    ascii_lower, chars_of, collapse_whitespace, collapse_ws, ends_with, find_chars,
    find_chars_from, find_from, find_seq, has_suffix, lemma_find_from, lemma_find_seq,
    lower_chars, parse_u8, parse_u8_spec, push_char, push_decimal, replace_all, replace_chars,
    str_eq, string_of, trim, trim_chars, decimal, usize_to_string,
};
use vstd::prelude::*;
use vstd::utf8::*;

verus! {

// ---------------------------------------------------------------------------
// Body extraction
// ---------------------------------------------------------------------------

/// The inner content of the first `<body ...>...</body>` block, trimmed; the
/// whole input when there is none.  The tags are found case-insensitively.
pub open spec fn body_inner(x: Seq<char>) -> Seq<char> {
    let l = ascii_lower(x);
    match find_seq(l, "<body"@) {
        None => x,
        Some(st) => match find_from(x, ">"@, st) {
            None => x,
            Some(g) => match find_from(l, "</body>"@, g + 1) {
                None => x,
                Some(e) => trim(x.subrange(g + 1, e)),
            },
        },
    }
}

/// Extract inner content of the first `<body>...</body>` block.
pub fn extract_body_inner(xhtml: &str) -> (r: String)
    ensures
        r@ == body_inner(xhtml@),
{
    let x = chars_of(xhtml);
    let l = lower_chars(x.as_slice());
    let body_open = chars_of("<body");
    let gt = chars_of(">");
    let body_close = chars_of("</body>");
    if let Some(start_tag) = find_chars(l.as_slice(), body_open.as_slice()) {
        proof {
            lemma_find_seq(l@, body_open@);
        }
        if let Some(g) = find_chars_from(x.as_slice(), gt.as_slice(), start_tag) {
            proof {
                lemma_find_from(x@, gt@, start_tag as int);
                reveal_strlit(">");
                assert(gt@.len() == 1);
                assert(g + 1 <= x@.len());
            }
            assert(x@.len() == x.len());
            let content_start = g + 1;
            if let Some(e) = find_chars_from(l.as_slice(), body_close.as_slice(), content_start) {
                proof {
                    lemma_find_from(l@, body_close@, content_start as int);
                }
                let inner: Vec<char> = slice_chars(x.as_slice(), content_start, e);
                let t = trim_chars(inner.as_slice());
                return string_of(t.as_slice());
            }
        }
    }
    string_of(x.as_slice())
}

/// `v[from..to]` as a new vector.
pub fn slice_chars(v: &[char], from: usize, to: usize) -> (r: Vec<char>)
    requires
        from <= to <= v@.len(),
    ensures
        r@ == v@.subrange(from as int, to as int),
{
    let mut r: Vec<char> = Vec::new();
    let mut i = from;
    while i < to
        invariant
            from <= i <= to <= v@.len(),
            r@ == v@.subrange(from as int, i as int),
        decreases to - i,
    {
        r.push(v[i]);
        i = i + 1;
        assert(r@ =~= v@.subrange(from as int, i as int));
    }
    r
}

// ---------------------------------------------------------------------------
// Escaping
// ---------------------------------------------------------------------------

/// The escaped form of one character.
pub open spec fn escape_char(c: char) -> Seq<char> {
    if c == '&' {
        "&amp;"@
    } else if c == '<' {
        "&lt;"@
    } else if c == '>' {
        "&gt;"@
    } else if c == '"' {
        "&quot;"@
    } else if c == '\'' {
        "&#39;"@
    } else {
        seq![c]
    }
}

/// HTML-escaping of a text: each character replaced by `escape_char`.
pub open spec fn escape(s: Seq<char>) -> Seq<char>
    decreases s.len(),
{
    if s.len() == 0 {
        Seq::empty()
    } else {
        escape_char(s[0]) + escape(s.skip(1))
    }
}

/// Appends the escaped form of `v` to `out`.
pub fn push_escaped(out: &mut String, v: &[char])
    ensures
        final(out)@ == old(out)@ + escape(v@),
{
    let mut i: usize = 0;
    assert(v@.skip(0) =~= v@);
    while i < v.len()
        invariant
            i <= v@.len(),
            old(out)@ + escape(v@) == out@ + escape(v@.skip(i as int)),
        decreases v@.len() - i,
    {
        let c = v[i];
        let ghost before = out@;
        assert(v@.skip(i as int)[0] == c);
        assert(v@.skip(i as int).skip(1) =~= v@.skip(i + 1));
        if c == '&' {
            out.append("&amp;");
        } else if c == '<' {
            out.append("&lt;");
        } else if c == '>' {
            out.append("&gt;");
        } else if c == '"' {
            out.append("&quot;");
        } else if c == '\'' {
            out.append("&#39;");
        } else {
            push_char(out, c);
            assert(out@ =~= before + seq![c]);
        }
        assert(out@ == before + escape_char(c));
        i = i + 1;
        assert(old(out)@ + escape(v@) =~= out@ + escape(v@.skip(i as int)));
    }
    assert(escape(v@.skip(i as int)) =~= Seq::<char>::empty());
    assert(out@ + Seq::<char>::empty() =~= out@);
}

/// Escape `& < > " '` for use in HTML text and attribute values.
pub fn escape_html(input: &str) -> (r: String)
    ensures
        r@ == escape(input@),
        forall|i: int|
            0 <= i < r@.len() ==> r@[i] != '<' && r@[i] != '>' && r@[i] != '"' && r@[i] != '\'',
{
    let v = chars_of(input);
    let mut out = String::new();
    push_escaped(&mut out, v.as_slice());
    assert(out@ =~= escape(input@));
    proof {
        lemma_escape_no_markup(input@);
    }
    out
}

/// Escaped text holds no `<`, `>`, `"` or `'`.
pub proof fn lemma_escape_no_markup(s: Seq<char>)
    ensures
        forall|i: int|
            0 <= i < escape(s).len() ==> escape(s)[i] != '<' && escape(s)[i] != '>'
                && escape(s)[i] != '"' && escape(s)[i] != '\'',
    decreases s.len(),
{
    if s.len() > 0 {
        lemma_escape_no_markup(s.skip(1));
        let e = escape_char(s[0]);
        reveal_strlit("&amp;");
        reveal_strlit("&lt;");
        reveal_strlit("&gt;");
        reveal_strlit("&quot;");
        reveal_strlit("&#39;");
        assert forall|i: int| 0 <= i < escape(s).len() implies escape(s)[i] != '<' && escape(
            s,
        )[i] != '>' && escape(s)[i] != '"' && escape(s)[i] != '\'' by {
            if i < e.len() {
                assert(escape(s)[i] == e[i]);
            } else {
                assert(escape(s)[i] == escape(s.skip(1))[i - e.len()]);
            }
        }
    }
}

// ---------------------------------------------------------------------------
// MIME types
// ---------------------------------------------------------------------------

/// Image MIME type for a file name, by its extension (case-insensitive).
pub open spec fn mime_for_path(p: Seq<char>) -> Seq<char> {
    let l = ascii_lower(p);
    if has_suffix(l, ".png"@) {
        "image/png"@
    } else if has_suffix(l, ".jpg"@) || has_suffix(l, ".jpeg"@) {
        "image/jpeg"@
    } else if has_suffix(l, ".gif"@) {
        "image/gif"@
    } else if has_suffix(l, ".webp"@) {
        "image/webp"@
    } else if has_suffix(l, ".svg"@) {
        "image/svg+xml"@
    } else if has_suffix(l, ".avif"@) {
        "image/avif"@
    } else {
        "application/octet-stream"@
    }
}

fn lower_ends_with(l: &Vec<char>, suffix: &str) -> (b: bool)
    ensures
        b == has_suffix(l@, suffix@),
{
    let s = chars_of(suffix);
    ends_with(l.as_slice(), s.as_slice())
}

pub fn mime_from_path(path: &str) -> (r: &'static str)
    ensures
        r@ == mime_for_path(path@),
{
    let p = chars_of(path);
    let l = lower_chars(p.as_slice());
    if lower_ends_with(&l, ".png") {
        "image/png"
    } else if lower_ends_with(&l, ".jpg") || lower_ends_with(&l, ".jpeg") {
        "image/jpeg"
    } else if lower_ends_with(&l, ".gif") {
        "image/gif"
    } else if lower_ends_with(&l, ".webp") {
        "image/webp"
    } else if lower_ends_with(&l, ".svg") {
        "image/svg+xml"
    } else if lower_ends_with(&l, ".avif") {
        "image/avif"
    } else {
        "application/octet-stream"
    }
}

/// File extension for an image MIME type.
pub open spec fn ext_for_mime(m: Seq<char>) -> Seq<char> {
    if m == "image/png"@ {
        "png"@
    } else if m == "image/jpeg"@ || m == "image/jpg"@ {
        "jpg"@
    } else if m == "image/gif"@ {
        "gif"@
    } else if m == "image/webp"@ {
        "webp"@
    } else if m == "image/svg+xml"@ {
        "svg"@
    } else if m == "image/avif"@ {
        "avif"@
    } else {
        "bin"@
    }
}

pub fn extension_for_mime(mime: &str) -> (r: &'static str)
    ensures
        r@ == ext_for_mime(mime@),
{
    if str_eq(mime, "image/png") {
        "png"
    } else if str_eq(mime, "image/jpeg") || str_eq(mime, "image/jpg") {
        "jpg"
    } else if str_eq(mime, "image/gif") {
        "gif"
    } else if str_eq(mime, "image/webp") {
        "webp"
    } else if str_eq(mime, "image/svg+xml") {
        "svg"
    } else if str_eq(mime, "image/avif") {
        "avif"
    } else {
        "bin"
    }
}

// ---------------------------------------------------------------------------
// Tag stripping
// ---------------------------------------------------------------------------

/// Text outside `<...>` tags, read left to right; `in_tag` after a `<` until the next `>`.
pub open spec fn untagged_from(s: Seq<char>, in_tag: bool) -> Seq<char>
    decreases s.len(),
{
    if s.len() == 0 {
        Seq::empty()
    } else if s[0] == '<' {
        untagged_from(s.skip(1), true)
    } else if s[0] == '>' {
        untagged_from(s.skip(1), false)
    } else if !in_tag {
        seq![s[0]] + untagged_from(s.skip(1), in_tag)
    } else {
        untagged_from(s.skip(1), in_tag)
    }
}

/// The characters of `s` that lie outside tags.
pub open spec fn untagged(s: Seq<char>) -> Seq<char> {
    untagged_from(s, false)
}

/// The characters of `v` outside tags.
pub fn remove_tags(v: &[char]) -> (r: Vec<char>)
    ensures
        r@ == untagged(v@),
        forall|i: int| 0 <= i < r@.len() ==> r@[i] != '<' && r@[i] != '>',
{
    let mut r: Vec<char> = Vec::new();
    let mut in_tag = false;
    let mut i: usize = 0;
    assert(v@.skip(0) =~= v@);
    while i < v.len()
        invariant
            i <= v@.len(),
            untagged(v@) == r@ + untagged_from(v@.skip(i as int), in_tag),
            forall|j: int| 0 <= j < r@.len() ==> r@[j] != '<' && r@[j] != '>',
        decreases v@.len() - i,
    {
        let c = v[i];
        assert(v@.skip(i as int)[0] == c);
        assert(v@.skip(i as int).skip(1) =~= v@.skip(i + 1));
        if c == '<' {
            in_tag = true;
        } else if c == '>' {
            in_tag = false;
        } else if !in_tag {
            r.push(c);
        }
        i = i + 1;
        assert(untagged(v@) =~= r@ + untagged_from(v@.skip(i as int), in_tag));
    }
    assert(untagged_from(v@.skip(i as int), in_tag) =~= Seq::<char>::empty());
    assert(r@ + Seq::<char>::empty() =~= r@);
    r
}

/// The common entities decoded, in this order.
pub open spec fn decode_entities(s: Seq<char>) -> Seq<char> {
    replace_all(
        replace_all(
            replace_all(
                replace_all(
                    replace_all(replace_all(s, "&nbsp;"@, " "@), "&amp;"@, "&"@),
                    "&lt;"@,
                    "<"@,
                ),
                "&gt;"@,
                ">"@,
            ),
            "&quot;"@,
            "\""@,
        ),
        "&#39;"@,
        "'"@,
    )
}

/// Plain text of an HTML fragment: tags dropped, then common entities decoded.
pub open spec fn strip_tags_spec(s: Seq<char>) -> Seq<char> {
    decode_entities(untagged(s))
}

fn replace_lit(v: Vec<char>, pat: &str, rep: &str) -> (r: Vec<char>)
    requires
        pat@.len() > 0,
    ensures
        r@ == replace_all(v@, pat@, rep@),
{
    let p = chars_of(pat);
    let q = chars_of(rep);
    replace_chars(v.as_slice(), p.as_slice(), q.as_slice())
}

/// Strip tags as characters.
pub fn strip_tags_chars(v: &[char]) -> (r: Vec<char>)
    ensures
        r@ == strip_tags_spec(v@),
{
    let t = remove_tags(v);
    proof {
        reveal_strlit("&nbsp;");
        reveal_strlit("&amp;");
        reveal_strlit("&lt;");
        reveal_strlit("&gt;");
        reveal_strlit("&quot;");
        reveal_strlit("&#39;");
    }
    let t = replace_lit(t, "&nbsp;", " ");
    let t = replace_lit(t, "&amp;", "&");
    let t = replace_lit(t, "&lt;", "<");
    let t = replace_lit(t, "&gt;", ">");
    let t = replace_lit(t, "&quot;", "\"");
    let t = replace_lit(t, "&#39;", "'");
    t
}

/// Strip HTML tags (simple, for titles/TOC).
pub fn strip_tags(html: &str) -> (r: String)
    ensures
        r@ == strip_tags_spec(html@),
{
    let v = chars_of(html);
    let t = strip_tags_chars(v.as_slice());
    string_of(t.as_slice())
}

// ---------------------------------------------------------------------------
// Escaping and tag stripping undo each other
// ---------------------------------------------------------------------------

/// The decoding step (0..6) at which `strip_tags` turns `c` back from its
/// entity; -1 for a character that `escape` keeps.
pub open spec fn markup_stage(c: char) -> int {
    if c == '<' {
        2
    } else if c == '>' {
        3
    } else if c == '"' {
        4
    } else if c == '\'' {
        5
    } else {
        -1
    }
}

pub open spec fn entity_of(c: char) -> Seq<char> {
    if c == '<' {
        "&lt;"@
    } else if c == '>' {
        "&gt;"@
    } else if c == '"' {
        "&quot;"@
    } else {
        "&#39;"@
    }
}

/// The entity replaced at decoding step `k`, and what replaces it.
pub open spec fn decode_pat(k: int) -> Seq<char> {
    if k == 0 {
        "&nbsp;"@
    } else if k == 1 {
        "&amp;"@
    } else if k == 2 {
        "&lt;"@
    } else if k == 3 {
        "&gt;"@
    } else if k == 4 {
        "&quot;"@
    } else {
        "&#39;"@
    }
}

pub open spec fn decode_rep(k: int) -> Seq<char> {
    if k == 0 {
        " "@
    } else if k == 1 {
        "&"@
    } else if k == 2 {
        "<"@
    } else if k == 3 {
        ">"@
    } else if k == 4 {
        "\""@
    } else {
        "'"@
    }
}

/// The first `k` decoding steps applied to `t`.
pub open spec fn decoded_upto(t: Seq<char>, k: int) -> Seq<char>
    decreases k,
{
    if k <= 0 {
        t
    } else {
        replace_all(decoded_upto(t, k - 1), decode_pat(k - 1), decode_rep(k - 1))
    }
}

/// What escaping made of `c`, after the first `k` decoding steps.
pub open spec fn part_decoded(c: char, k: int) -> Seq<char> {
    if markup_stage(c) >= k {
        entity_of(c)
    } else {
        seq![c]
    }
}

pub open spec fn parts_decoded(s: Seq<char>, k: int) -> Seq<char>
    decreases s.len(),
{
    if s.len() == 0 {
        Seq::empty()
    } else {
        part_decoded(s[0], k) + parts_decoded(s.skip(1), k)
    }
}

pub open spec fn no_amp(u: Seq<char>) -> bool {
    forall|i: int| 0 <= i < u.len() ==> u[i] != '&'
}

/// `&`, then neither `&` nor `;`, then `;`.
pub open spec fn is_entity(e: Seq<char>) -> bool {
    &&& e.len() >= 2
    &&& e[0] == '&'
    &&& e[e.len() - 1] == ';'
    &&& forall|i: int| 0 < i < e.len() - 1 ==> e[i] != ';' && e[i] != '&'
}

proof fn lemma_decode_literals()
    ensures
        forall|k: int| 0 <= k < 6 ==> is_entity(#[trigger] decode_pat(k)),
        forall|k: int, j: int|
            0 <= k < 6 && 0 <= j < 6 && k != j ==> #[trigger] decode_pat(k) != #[trigger] decode_pat(j),
        forall|c: char| markup_stage(c) >= 0 ==> #[trigger] entity_of(c) == decode_pat(markup_stage(c)),
        forall|c: char| markup_stage(c) >= 0 ==> decode_rep(#[trigger] markup_stage(c)) == seq![c],
{
    reveal_strlit("&nbsp;");
    reveal_strlit("&amp;");
    reveal_strlit("&lt;");
    reveal_strlit("&gt;");
    reveal_strlit("&quot;");
    reveal_strlit("&#39;");
    reveal_strlit("<");
    reveal_strlit(">");
    reveal_strlit("\"");
    reveal_strlit("'");
    assert forall|k: int| 0 <= k < 6 implies is_entity(#[trigger] decode_pat(k)) by {
        let e = decode_pat(k);
        assert forall|i: int| 0 < i < e.len() - 1 implies e[i] != ';' && e[i] != '&' by {}
    }
    assert forall|k: int, j: int|
        0 <= k < 6 && 0 <= j < 6 && k != j implies #[trigger] decode_pat(k) != #[trigger] decode_pat(
        j,
    ) by {
        assert(decode_pat(k)[1] != decode_pat(j)[1]);
    }
    assert forall|c: char| markup_stage(c) >= 0 implies decode_rep(#[trigger] markup_stage(c))
        == seq![c] by {
        assert(decode_rep(markup_stage(c)) =~= seq![c]);
    }
}

/// Replacing an entity leaves a leading run without `&` as it is.
proof fn lemma_replace_plain_prefix(u: Seq<char>, x: Seq<char>, p: Seq<char>, r: Seq<char>)
    requires
        no_amp(u),
        p.len() > 0,
        p[0] == '&',
    ensures
        replace_all(u + x, p, r) == u + replace_all(x, p, r),
    decreases u.len(),
{
    let y = u + x;
    if u.len() == 0 {
        assert(y =~= x);
    } else if y.len() < p.len() {
        assert(y == u + x);
    } else {
        assert(y.take(p.len() as int)[0] == u[0]);
        assert(y.skip(1) =~= u.skip(1) + x);
        lemma_replace_plain_prefix(u.skip(1), x, p, r);
        assert(seq![y[0]] + (u.skip(1) + replace_all(x, p, r)) =~= u + replace_all(x, p, r));
    }
}

/// Replacing one entity leaves another entity at the front as it is.
proof fn lemma_replace_other_entity(e: Seq<char>, x: Seq<char>, p: Seq<char>, r: Seq<char>)
    requires
        is_entity(e),
        is_entity(p),
        e != p,
    ensures
        replace_all(e + x, p, r) == e + replace_all(x, p, r),
{
    let y = e + x;
    if y.len() < p.len() {
        assert(replace_all(x, p, r) == x);
    } else {
        if y.take(p.len() as int) == p {
            if p.len() <= e.len() {
                assert(e[p.len() - 1] == y.take(p.len() as int)[p.len() - 1]);
                if p.len() < e.len() {
                    assert(false);
                } else {
                    assert(e =~= p);
                }
            } else {
                assert(y.take(p.len() as int)[e.len() - 1] == e[e.len() - 1]);
                assert(false);
            }
        }
        assert(y.skip(1) =~= e.skip(1) + x);
        assert(no_amp(e.skip(1)));
        lemma_replace_plain_prefix(e.skip(1), x, p, r);
        assert(seq![y[0]] + (e.skip(1) + replace_all(x, p, r)) =~= e + replace_all(x, p, r));
    }
}

/// One decoding step takes the escaped characters one step further.
proof fn lemma_decode_step(s: Seq<char>, k: int)
    requires
        no_amp(s),
        0 <= k < 6,
    ensures
        replace_all(parts_decoded(s, k), decode_pat(k), decode_rep(k)) == parts_decoded(s, k + 1),
    decreases s.len(),
{
    lemma_decode_literals();
    let p = decode_pat(k);
    let r = decode_rep(k);
    assert(is_entity(p));
    if s.len() == 0 {
        assert(replace_all(Seq::<char>::empty(), p, r) == Seq::<char>::empty());
    } else {
        let c = s[0];
        let rest = parts_decoded(s.skip(1), k);
        assert(no_amp(s.skip(1))) by {
            assert forall|i: int| 0 <= i < s.skip(1).len() implies s.skip(1)[i] != '&' by {
                assert(s.skip(1)[i] == s[i + 1]);
            }
        }
        lemma_decode_step(s.skip(1), k);
        if markup_stage(c) >= k {
            let e = entity_of(c);
            assert(e == decode_pat(markup_stage(c)));
            if markup_stage(c) == k {
                assert((e + rest).take(p.len() as int) =~= p);
                assert((e + rest).skip(p.len() as int) =~= rest);
            } else {
                assert(is_entity(e));
                lemma_replace_other_entity(e, rest, p, r);
            }
        } else {
            assert(c != '&');
            lemma_replace_plain_prefix(seq![c], rest, p, r);
        }
    }
}

proof fn lemma_escape_parts(s: Seq<char>)
    requires
        no_amp(s),
    ensures
        escape(s) == parts_decoded(s, 0),
    decreases s.len(),
{
    if s.len() > 0 {
        assert(s[0] != '&');
        assert(no_amp(s.skip(1))) by {
            assert forall|i: int| 0 <= i < s.skip(1).len() implies s.skip(1)[i] != '&' by {
                assert(s.skip(1)[i] == s[i + 1]);
            }
        }
        lemma_escape_parts(s.skip(1));
        assert(escape_char(s[0]) == part_decoded(s[0], 0));
    }
}

proof fn lemma_parts_decoded_all(s: Seq<char>)
    ensures
        parts_decoded(s, 6) == s,
    decreases s.len(),
{
    if s.len() > 0 {
        lemma_parts_decoded_all(s.skip(1));
        assert(seq![s[0]] + s.skip(1) =~= s);
    }
}

proof fn lemma_untagged_plain(t: Seq<char>)
    requires
        forall|i: int| 0 <= i < t.len() ==> t[i] != '<' && t[i] != '>',
    ensures
        untagged_from(t, false) == t,
    decreases t.len(),
{
    if t.len() > 0 {
        assert forall|i: int| 0 <= i < t.skip(1).len() implies t.skip(1)[i] != '<' && t.skip(1)[i]
            != '>' by {
            assert(t.skip(1)[i] == t[i + 1]);
        }
        lemma_untagged_plain(t.skip(1));
        assert(seq![t[0]] + t.skip(1) =~= t);
    }
}

proof fn lemma_decoded_upto(s: Seq<char>, k: int)
    requires
        no_amp(s),
        0 <= k <= 6,
    ensures
        decoded_upto(escape(s), k) == parts_decoded(s, k),
    decreases k,
{
    if k == 0 {
        lemma_escape_parts(s);
    } else {
        lemma_decoded_upto(s, k - 1);
        lemma_decode_step(s, k - 1);
    }
}

/// Stripping tags from escaped text gives the text back, when the text holds
/// no `&`.
pub proof fn lemma_strip_tags_escape(s: Seq<char>)
    requires
        no_amp(s),
    ensures
        strip_tags_spec(escape(s)) == s,
{
    lemma_escape_no_markup(s);
    lemma_untagged_plain(escape(s));
    lemma_decoded_upto(s, 6);
    lemma_parts_decoded_all(s);
    let t = escape(s);
    assert(decoded_upto(t, 0) == t);
    assert(decoded_upto(t, 1) == replace_all(t, "&nbsp;"@, " "@));
    assert(decoded_upto(t, 2) == replace_all(decoded_upto(t, 1), "&amp;"@, "&"@));
    assert(decoded_upto(t, 3) == replace_all(decoded_upto(t, 2), "&lt;"@, "<"@));
    assert(decoded_upto(t, 4) == replace_all(decoded_upto(t, 3), "&gt;"@, ">"@));
    assert(decoded_upto(t, 5) == replace_all(decoded_upto(t, 4), "&quot;"@, "\""@));
    assert(decoded_upto(t, 6) == replace_all(decoded_upto(t, 5), "&#39;"@, "'"@));
    assert(untagged(t) == t);
    assert(decode_entities(t) == decoded_upto(t, 6));
}

// ---------------------------------------------------------------------------
// Headings
// ---------------------------------------------------------------------------

/// A heading found in HTML (for TOC).
#[derive(Debug, Clone)]
pub struct HtmlHeading {
    pub level: u8,
    pub text: String,
    pub id: Option<String>,
}

pub struct HeadingView {
    pub level: u8,
    pub text: Seq<char>,
    pub id: Option<Seq<char>>,
}

impl View for HtmlHeading {
    type V = HeadingView;

    open spec fn view(&self) -> HeadingView {
        HeadingView { level: self.level, text: self.text@, id: self.id.deep_view() }
    }
}

pub open spec fn headings_view(v: Seq<HtmlHeading>) -> Seq<HeadingView> {
    v.map_values(|h: HtmlHeading| h@)
}

/// `<h1>`..`<h3>` with attributes and content, up to the next heading close tag.
pub open spec fn heading_pattern() -> Seq<char> {
    "(?is)<h([1-3])\\b([^>]*)>(.*?)</h[1-3]>"@
}

fn heading_pattern_str() -> (p: &'static str)
    ensures
        p@ == heading_pattern(),
{
    "(?is)<h([1-3])\\b([^>]*)>(.*?)</h[1-3]>"
}

/// An `id="..."`, `id='...'` or bare `id=...` attribute.
pub open spec fn id_attr_pattern() -> Seq<char> {
    "(?i)\\bid\\s*=\\s*(?:\"([^\"]*)\"|'([^']*)'|([^\\s>]+))"@
}

fn id_attr_pattern_str() -> (p: &'static str)
    ensures
        p@ == id_attr_pattern(),
{
    "(?i)\\bid\\s*=\\s*(?:\"([^\"]*)\"|'([^']*)'|([^\\s>]+))"
}

/// The value of the first `id` attribute in an attribute list, when not empty.
pub open spec fn id_attr(attrs: Seq<char>) -> Option<Seq<char>> {
    match regex_spans(id_attr_pattern(), attrs) {
        None => None,
        Some(ms) => if ms.len() == 0 {
            None
        } else {
            let v = match group_text(attrs, ms[0], 1) {
                Some(t) => Some(t),
                None => match group_text(attrs, ms[0], 2) {
                    Some(t) => Some(t),
                    None => group_text(attrs, ms[0], 3),
                },
            };
            match v {
                Some(t) => if t.len() > 0 {
                    Some(t)
                } else {
                    None
                },
                None => None,
            }
        },
    }
}

/// Value of the `id` attribute in an attribute list.
pub fn attr_id(attrs: &str) -> (r: Option<String>)
    ensures
        r.deep_view() == id_attr(attrs@),
{
    let ms = match regex_captures(id_attr_pattern_str(), attrs) {
        Some(ms) => ms,
        None => return None,
    };
    if ms.len() == 0 {
        return None;
    }
    let v = match group(attrs, &ms, 0, 1) {
        Some(t) => Some(t),
        None => match group(attrs, &ms, 0, 2) {
            Some(t) => Some(t),
            None => group(attrs, &ms, 0, 3),
        },
    };
    match v {
        Some(t) => {
            if t.is_empty() {
                None
            } else {
                Some(t.to_owned())
            }
        },
        None => None,
    }
}

/// The heading that a match of `heading_pattern` stands for, unless its level
/// does not parse or its text is empty.
pub open spec fn heading_of(text: Seq<char>, c: Spans) -> Option<HeadingView> {
    match group_text(text, c, 1) {
        None => None,
        Some(l) => match parse_u8_spec(l) {
            None => None,
            Some(level) => {
                let t = collapse_ws(strip_tags_spec(group_or_empty(text, c, 3)));
                if t.len() == 0 {
                    None
                } else {
                    Some(HeadingView { level, text: t, id: id_attr(group_or_empty(text, c, 2)) })
                }
            },
        },
    }
}

fn heading_from_caps(text: &str, ms: &Vec<Vec<Option<(usize, usize)>>>, i: usize) -> (r: Option<
    HtmlHeading,
>)
    requires
        i < ms@.len(),
        spans_ok(text@, spans_view(ms@)),
    ensures
        r matches Some(h) ==> heading_of(text@, ms@[i as int]@) == Some(h@),
        r is None ==> heading_of(text@, ms@[i as int]@) is None,
{
    let l = match group(text, ms, i, 1) {
        Some(l) => l,
        None => return None,
    };
    let lv = chars_of(l);
    let level = match parse_u8(lv.as_slice()) {
        Some(level) => level,
        None => return None,
    };
    let inner = chars_of(group_or_empty_str(text, ms, i, 3));
    let plain = strip_tags_chars(inner.as_slice());
    let t = collapse_whitespace(plain.as_slice());
    if t.len() == 0 {
        return None;
    }
    let id = attr_id(group_or_empty_str(text, ms, i, 2));
    let h = HtmlHeading { level, text: string_of(t.as_slice()), id };
    Some(h)
}

/// Headings of the first `n` matches, in order.
pub open spec fn headings_upto(text: Seq<char>, ms: Seq<Spans>, n: int) -> Seq<HeadingView>
    decreases n,
{
    if n <= 0 {
        Seq::empty()
    } else {
        let prev = headings_upto(text, ms, n - 1);
        match heading_of(text, ms[n - 1]) {
            Some(h) => prev.push(h),
            None => prev,
        }
    }
}

/// All h1–h3 headings of an HTML text, in document order.
pub open spec fn headings_spec(text: Seq<char>) -> Seq<HeadingView> {
    match regex_spans(heading_pattern(), text) {
        None => Seq::empty(),
        Some(ms) => headings_upto(text, ms, ms.len() as int),
    }
}

/// The headings of the matches `ms` of `heading_pattern` in `html`, in order.
pub fn headings_from_matches(html: &str, ms: &Vec<Vec<Option<(usize, usize)>>>) -> (r: Vec<
    HtmlHeading,
>)
    requires
        spans_ok(html@, spans_view(ms@)),
    ensures
        headings_view(r@) == headings_upto(html@, spans_view(ms@), ms@.len() as int),
{
    let mut r: Vec<HtmlHeading> = Vec::new();
    let mut i: usize = 0;
    assert(headings_view(r@) =~= Seq::<HeadingView>::empty());
    while i < ms.len()
        invariant
            i <= ms@.len(),
            spans_ok(html@, spans_view(ms@)),
            headings_view(r@) == headings_upto(html@, spans_view(ms@), i as int),
        decreases ms@.len() - i,
    {
        assert(spans_view(ms@)[i as int] == ms@[i as int]@);
        match heading_from_caps(html, ms, i) {
            Some(h) => {
                r.push(h);
            },
            None => {},
        }
        i = i + 1;
        assert(headings_view(r@) =~= headings_upto(html@, spans_view(ms@), i as int));
    }
    r
}

/// All h1–h3 headings in document order.
pub fn extract_headings(html: &str) -> (r: Vec<HtmlHeading>)
    ensures
        headings_view(r@) == headings_spec(html@),
{
    match regex_captures(heading_pattern_str(), html) {
        Some(ms) => headings_from_matches(html, &ms),
        None => {
            let r: Vec<HtmlHeading> = Vec::new();
            assert(headings_view(r@) =~= Seq::<HeadingView>::empty());
            r
        },
    }
}

/// First heading text in HTML fragment, if any (h1–h3).
pub fn first_heading_text(html: &str) -> (r: Option<String>)
    ensures
        r.deep_view() == (if headings_spec(html@).len() > 0 {
            Some(headings_spec(html@)[0].text)
        } else {
            None
        }),
{
    let hs = extract_headings(html);
    if hs.len() > 0 {
        assert(headings_view(hs@)[0] == hs@[0]@);
        Some(hs[0].text.clone())
    } else {
        None
    }
}


// ---------------------------------------------------------------------------
// Heading ids
// ---------------------------------------------------------------------------

/// The id given to the `n`-th heading that has none.
pub open spec fn generated_id(prefix: Seq<char>, n: nat) -> Seq<char> {
    prefix + "h"@ + decimal(n)
}

/// The opening tag written for a heading: unchanged when it has an `id`
/// attribute, else with `id="..."` added after its (trimmed) attributes.
pub open spec fn heading_open_tag(level: u8, attrs: Seq<char>, id: Seq<char>) -> Seq<char> {
    if id_attr(attrs) is Some {
        "<h"@ + decimal(level as nat) + attrs + ">"@
    } else if trim(attrs).len() == 0 {
        "<h"@ + decimal(level as nat) + " id=\""@ + id + "\">"@
    } else {
        "<h"@ + decimal(level as nat) + " "@ + trim(attrs) + " id=\""@ + id + "\">"@
    }
}

/// A heading rewritten with a matching close tag.
pub open spec fn rewritten_heading(level: u8, attrs: Seq<char>, inner: Seq<char>, id: Seq<char>) -> Seq<char> {
    heading_open_tag(level, attrs, id) + inner + "</h"@ + decimal(level as nat) + ">"@
}

/// After the first `n` matches: the text written so far, the headings found,
/// how many ids were generated, and the byte offset where copying resumes.
pub open spec fn ids_state(text: Seq<char>, ms: Seq<Spans>, prefix: Seq<char>, n: int) -> (
    Seq<char>,
    Seq<HeadingView>,
    nat,
    int,
)
    decreases n,
{
    if n <= 0 {
        (Seq::empty(), Seq::empty(), 0, 0)
    } else {
        let st = ids_state(text, ms, prefix, n - 1);
        let c = ms[n - 1];
        match heading_of(text, c) {
            None => st,
            Some(h) => {
                let auto: nat = if h.id is Some {
                    st.2
                } else {
                    st.2 + 1
                };
                let id = match h.id {
                    Some(i) => i,
                    None => generated_id(prefix, auto),
                };
                let w = whole(c);
                (
                    st.0 + byte_slice(text, st.3, w.0 as int) + rewritten_heading(
                        h.level,
                        group_or_empty(text, c, 2),
                        group_or_empty(text, c, 3),
                        id,
                    ),
                    st.1.push(HeadingView { level: h.level, text: h.text, id: Some(id) }),
                    auto,
                    w.1 as int,
                )
            },
        }
    }
}

/// The rewritten text and its headings.
pub open spec fn heading_ids_spec(text: Seq<char>, prefix: Seq<char>) -> (
    Seq<char>,
    Seq<HeadingView>,
) {
    match regex_spans(heading_pattern(), text) {
        None => (text, Seq::empty()),
        Some(ms) => {
            let st = ids_state(text, ms, prefix, ms.len() as int);
            (st.0 + byte_slice(text, st.3, encode_utf8(text).len() as int), st.1)
        },
    }
}

/// Every heading of `ids_state` has an id, and agrees with `headings_upto`
/// on level, text and any id the document gave it.
pub proof fn lemma_ids_state_headings(text: Seq<char>, ms: Seq<Spans>, prefix: Seq<char>, n: int)
    requires
        0 <= n <= ms.len(),
    ensures
        ({
            let hs = ids_state(text, ms, prefix, n).1;
            let plain = headings_upto(text, ms, n);
            &&& hs.len() == plain.len()
            &&& ids_state(text, ms, prefix, n).2 <= n
            &&& forall|j: int|
                0 <= j < hs.len() ==> {
                    &&& (#[trigger] hs[j]).id is Some
                    &&& hs[j].level == plain[j].level
                    &&& hs[j].text == plain[j].text
                    &&& plain[j].id is Some ==> hs[j].id == plain[j].id
                }
        }),
    decreases n,
{
    if n > 0 {
        lemma_ids_state_headings(text, ms, prefix, n - 1);
    }
}

/// How many of the headings have no id of their own.
pub open spec fn missing_ids(hs: Seq<HeadingView>) -> nat
    decreases hs.len(),
{
    if hs.len() == 0 {
        0
    } else {
        missing_ids(hs.drop_last()) + if hs.last().id is None {
            1nat
        } else {
            0nat
        }
    }
}

/// The `j`-th heading without an id of its own gets the generated id
/// numbered by how many headings up to it lack one.
pub open spec fn generated_for(
    hs: Seq<HeadingView>,
    plain: Seq<HeadingView>,
    prefix: Seq<char>,
    j: int,
) -> bool {
    plain[j].id is None ==> hs[j].id == Some(generated_id(prefix, missing_ids(plain.take(j + 1))))
}

proof fn lemma_ids_state_generated(text: Seq<char>, ms: Seq<Spans>, prefix: Seq<char>, n: int)
    requires
        0 <= n <= ms.len(),
    ensures
        ids_state(text, ms, prefix, n).2 == missing_ids(headings_upto(text, ms, n)),
        forall|j: int|
            0 <= j < headings_upto(text, ms, n).len() ==> #[trigger] generated_for(
                ids_state(text, ms, prefix, n).1,
                headings_upto(text, ms, n),
                prefix,
                j,
            ),
    decreases n,
{
    lemma_ids_state_headings(text, ms, prefix, n);
    if n > 0 {
        lemma_ids_state_generated(text, ms, prefix, n - 1);
        lemma_ids_state_headings(text, ms, prefix, n - 1);
        let hs0 = ids_state(text, ms, prefix, n - 1).1;
        let p0 = headings_upto(text, ms, n - 1);
        let hs = ids_state(text, ms, prefix, n).1;
        let p = headings_upto(text, ms, n);
        match heading_of(text, ms[n - 1]) {
            None => {},
            Some(h) => {
                assert(p == p0.push(h));
                assert(p.drop_last() =~= p0);
                assert forall|j: int| 0 <= j < p.len() implies #[trigger] generated_for(
                    hs,
                    p,
                    prefix,
                    j,
                ) by {
                    if j < p0.len() {
                        assert(generated_for(hs0, p0, prefix, j));
                        assert(hs[j] == hs0[j]);
                        assert(p[j] == p0[j]);
                        assert(p.take(j + 1) =~= p0.take(j + 1));
                    } else {
                        assert(p.take(j + 1) =~= p);
                    }
                }
            },
        }
    }
}

/// `ensure_heading_ids` on a list of headings: each keeps its level, text and
/// any id of its own; the `k`-th one without an id gets `{prefix}h{k}`.
pub proof fn lemma_heading_ids(text: Seq<char>, prefix: Seq<char>)
    ensures
        heading_ids_spec(text, prefix).1.len() == headings_spec(text).len(),
        forall|j: int|
            0 <= j < headings_spec(text).len() ==> #[trigger] generated_for(
                heading_ids_spec(text, prefix).1,
                headings_spec(text),
                prefix,
                j,
            ),
{
    if let Some(ms) = regex_spans(heading_pattern(), text) {
        lemma_ids_state_headings(text, ms, prefix, ms.len() as int);
        lemma_ids_state_generated(text, ms, prefix, ms.len() as int);
    }
}

/// Appends a heading rewritten by `rewritten_heading`.
fn push_heading(out: &mut String, level: u8, attrs: &str, inner: &str, id: &str, has_id: bool)
    requires
        has_id == (id_attr(attrs@) is Some),
    ensures
        final(out)@ == old(out)@ + rewritten_heading(level, attrs@, inner@, id@),
{
    out.append("<h");
    push_decimal(out, level as usize);
    if has_id {
        out.append(attrs);
        out.append(">");
    } else {
        let ta = trim_chars(chars_of(attrs).as_slice());
        if ta.len() == 0 {
            out.append(" id=\"");
            out.append(id);
            out.append("\">");
        } else {
            out.append(" ");
            let tas = string_of(ta.as_slice());
            out.append(tas.as_str());
            out.append(" id=\"");
            out.append(id);
            out.append("\">");
        }
    }
    out.append(inner);
    out.append("</h");
    push_decimal(out, level as usize);
    out.append(">");
    assert(out@ =~= old(out)@ + rewritten_heading(level, attrs@, inner@, id@));
}

/// Ensure every h1–h3 has an `id` (inject generated ones). Returns rewritten HTML + headings.
pub fn ensure_heading_ids(html: &str, id_prefix: &str) -> (r: (String, Vec<HtmlHeading>))
    ensures
        r.0@ == heading_ids_spec(html@, id_prefix@).0,
        headings_view(r.1@) == heading_ids_spec(html@, id_prefix@).1,
        r.1@.len() == headings_spec(html@).len(),
        forall|j: int|
            0 <= j < r.1@.len() ==> {
                &&& (#[trigger] r.1@[j]).id is Some
                &&& r.1@[j].level == headings_spec(html@)[j].level
                &&& r.1@[j].text@ == headings_spec(html@)[j].text
                &&& headings_spec(html@)[j].id is Some ==> r.1@[j].id.deep_view()
                    == headings_spec(html@)[j].id
            },
        forall|j: int|
            0 <= j < r.1@.len() ==> #[trigger] generated_for(
                headings_view(r.1@),
                headings_spec(html@),
                id_prefix@,
                j,
            ),
{
    proof {
        lemma_heading_ids(html@, id_prefix@);
    }
    let mut heads: Vec<HtmlHeading> = Vec::new();
    let ms = match regex_captures(heading_pattern_str(), html) {
        Some(ms) => ms,
        None => {
            assert(headings_view(heads@) =~= Seq::<HeadingView>::empty());
            return (html.to_owned(), heads);
        },
    };
    let ghost m = spans_view(ms@);
    let ghost bytes = encode_utf8(html@);
    let mut out = String::new();
    let mut auto: usize = 0;
    let mut last: usize = 0;
    let mut i: usize = 0;
    proof {
        encode_utf8_valid_utf8(html@);
        is_char_boundary_start_end_of_seq(bytes);
    }
    while i < ms.len()
        invariant
            i <= ms@.len(),
            m == spans_view(ms@),
            bytes == encode_utf8(html@),
            spans_ok(html@, m),
            m == regex_spans(heading_pattern(), html@)->0,
            ids_state(html@, m, id_prefix@, i as int) == (
                out@,
                headings_view(heads@),
                auto as nat,
                last as int,
            ),
            auto <= i,
            last <= bytes.len(),
            is_char_boundary(bytes, last as int),
            forall|k: int| i <= k < m.len() ==> last <= (#[trigger] whole(m[k])).0,
        decreases ms@.len() - i,
    {
        assert(m[i as int] == ms@[i as int]@);
        let ghost st = ids_state(html@, m, id_prefix@, i as int);
        match heading_from_caps(html, &ms, i) {
            Some(h) => {
                let sp = ms[i][0].unwrap();
                assert(sp == whole(m[i as int]));
                let gap = slice_str(html, last, sp.0);
                out.append(gap);
                let has_id = h.id.is_some();
                let id: String = match &h.id {
                    Some(x) => x.clone(),
                    None => {
                        auto = auto + 1;
                        let mut g = String::from_str(id_prefix);
                        g.append("h");
                        push_decimal(&mut g, auto);
                        g
                    },
                };
                let attrs = group_or_empty_str(html, &ms, i, 2);
                let inner = group_or_empty_str(html, &ms, i, 3);
                push_heading(&mut out, h.level, attrs, inner, id.as_str(), has_id);
                let h2 = HtmlHeading { level: h.level, text: h.text, id: Some(id) };
                heads.push(h2);
                last = sp.1;
                assert(headings_view(heads@) =~= st.1.push(h2@));
            },
            None => {},
        }
        i = i + 1;
    }
    proof {
        encode_utf8_valid_utf8(html@);
        is_char_boundary_start_end_of_seq(bytes);
    }
    let n = html.as_bytes().len();
    let tail = slice_str(html, last, n);
    out.append(tail);
    proof {
        lemma_ids_state_headings(html@, m, id_prefix@, m.len() as int);
    }
    assert forall|j: int| 0 <= j < heads@.len() implies (#[trigger] heads@[j]).id is Some by {
        assert(headings_view(heads@)[j] == heads@[j]@);
    }
    assert forall|j: int| 0 <= j < heads@.len() implies heads@[j].level == headings_spec(html@)[j].level
        && heads@[j].text@ == headings_spec(html@)[j].text && (headings_spec(html@)[j].id is Some
        ==> heads@[j].id.deep_view() == headings_spec(html@)[j].id) by {
        assert(headings_view(heads@)[j] == heads@[j]@);
    }
    (out, heads)
}

} // verus!
