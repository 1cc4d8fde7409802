//! Plain-text books: paragraphs are runs of non-blank lines.
use crate::formats::ParsedBook;
use crate::html_util::{escape, push_escaped};
use crate::text::{push_char, trim, trim_chars, trim_end, trim_end_len};
use vstd::prelude::*;
use vstd::utf8::{decode_utf8, valid_utf8};

verus! {

// ---------------------------------------------------------------------------
// Decoding
// ---------------------------------------------------------------------------

/// `String::from_utf8_lossy`: invalid sequences become U+FFFD.
pub uninterp spec fn utf8_lossy(bytes: Seq<u8>) -> Seq<char>;

/// `std::str::from_utf8(bytes).ok()`: the text exactly when the bytes are valid UTF-8.
#[verifier::external_body]
fn utf8_text(bytes: &[u8]) -> (r: Option<&str>)
    ensures
        r is Some <==> valid_utf8(bytes@),
        r matches Some(s) ==> s@ == decode_utf8(bytes@),
{
    std::str::from_utf8(bytes).ok()
}

/// `String::from_utf8_lossy(bytes).into_owned()`; its result is named by
/// `utf8_lossy`.  As std documents, valid UTF-8 comes back unchanged.
#[verifier::external_body]
pub(crate) fn utf8_lossy_text(bytes: &[u8]) -> (r: String)
    ensures
        r@ == utf8_lossy(bytes@),
        valid_utf8(bytes@) ==> r@ == decode_utf8(bytes@),
{
    String::from_utf8_lossy(bytes).into_owned()
}

/// UTF-8 first; other bytes are decoded lossily.
pub fn decode_text(bytes: &[u8]) -> (r: String)
    ensures
        valid_utf8(bytes@) ==> r@ == decode_utf8(bytes@),
        !valid_utf8(bytes@) ==> r@ == utf8_lossy(bytes@),
{
    match utf8_text(bytes) {
        Some(s) => s.to_owned(),
        None => utf8_lossy_text(bytes),
    }
}

// ---------------------------------------------------------------------------
// Paragraphs
// ---------------------------------------------------------------------------

/// Lines finished so far and the current line, splitting at `\n`.
pub open spec fn split_state(s: Seq<char>) -> (Seq<Seq<char>>, Seq<char>)
    decreases s.len(),
{
    if s.len() == 0 {
        (Seq::empty(), Seq::empty())
    } else {
        let st = split_state(s.drop_last());
        if s.last() == '\n' {
            (st.0.push(st.1), Seq::empty())
        } else {
            (st.0, st.1.push(s.last()))
        }
    }
}

/// `s.split('\n')`.  Splitting with `str::lines` instead gives the same
/// paragraphs: it only drops a last empty line and `\r` before `\n`, which
/// `trim_end` removes anyway.
pub open spec fn lines_of(s: Seq<char>) -> Seq<Seq<char>> {
    split_state(s).0.push(split_state(s).1)
}

pub open spec fn para_html(p: Seq<char>) -> Seq<char> {
    "<p>"@ + escape(p) + "</p>"@
}

/// One line: a blank line closes the open paragraph; another line joins it,
/// trimmed, after a space.
pub open spec fn txt_step(st: (Seq<char>, Seq<char>), line: Seq<char>) -> (Seq<char>, Seq<char>) {
    let t = trim_end(line);
    if t.len() == 0 {
        if st.1.len() > 0 {
            (st.0 + para_html(st.1), Seq::empty())
        } else {
            st
        }
    } else {
        let p = if st.1.len() > 0 {
            st.1.push(' ')
        } else {
            st.1
        };
        (st.0, p + trim(t))
    }
}

/// HTML written and paragraph open after the given lines.
pub open spec fn txt_fold(lines: Seq<Seq<char>>) -> (Seq<char>, Seq<char>)
    decreases lines.len(),
{
    if lines.len() == 0 {
        (Seq::empty(), Seq::empty())
    } else {
        txt_step(txt_fold(lines.drop_last()), lines.last())
    }
}

/// All paragraphs of a text.
pub open spec fn txt_body(text: Seq<char>) -> Seq<char> {
    let st = txt_fold(lines_of(text));
    if st.1.len() > 0 {
        st.0 + para_html(st.1)
    } else {
        st.0
    }
}

/// The reader HTML of a text: its paragraphs, or one empty paragraph.
pub open spec fn txt_html(text: Seq<char>) -> Seq<char> {
    let b = txt_body(text);
    "<article class=\"txt-book\">"@ + (if b.len() == 0 {
        "<p></p>"@
    } else {
        b
    }) + "</article>"@
}

fn flush_paragraph(body: &mut String, par: &mut Vec<char>)
    requires
        old(par)@.len() > 0,
    ensures
        final(body)@ == old(body)@ + para_html(old(par)@),
        final(par)@.len() == 0,
{
    body.append("<p>");
    push_escaped(body, par.as_slice());
    body.append("</p>");
    assert(body@ =~= old(body)@ + para_html(old(par)@));
    par.clear();
}

fn txt_line(body: &mut String, par: &mut Vec<char>, line: &[char])
    ensures
        (final(body)@, final(par)@) == txt_step((old(body)@, old(par)@), line@),
{
    let n = trim_end_len(line);
    if n == 0 {
        if par.len() > 0 {
            flush_paragraph(body, par);
            assert(par@ =~= Seq::<char>::empty());
        }
    } else {
        if par.len() > 0 {
            par.push(' ');
        }
        let ghost p0 = par@;
        let mut head: Vec<char> = Vec::new();
        let mut k: usize = 0;
        while k < n
            invariant
                k <= n <= line@.len(),
                head@ == line@.take(k as int),
            decreases n - k,
        {
            head.push(line[k]);
            k = k + 1;
            assert(head@ =~= line@.take(k as int));
        }
        let t = trim_chars(head.as_slice());
        let mut j: usize = 0;
        while j < t.len()
            invariant
                j <= t@.len(),
                par@ == p0 + t@.take(j as int),
            decreases t@.len() - j,
        {
            par.push(t[j]);
            j = j + 1;
            assert(par@ =~= p0 + t@.take(j as int));
        }
        assert(t@.take(t@.len() as int) =~= t@);
    }
}

/// Paragraphs of plain text as reader HTML.
pub fn text_to_html(text: &str) -> (r: String)
    ensures
        r@ == txt_html(text@),
{
    let v = crate::text::chars_of(text);
    let mut body = String::new();
    let mut par: Vec<char> = Vec::new();
    let mut line: Vec<char> = Vec::new();
    let mut i: usize = 0;
    while i < v.len()
        invariant
            i <= v@.len(),
            v@ == text@,
            (body@, par@) == txt_fold(split_state(v@.take(i as int)).0),
            line@ == split_state(v@.take(i as int)).1,
        decreases v@.len() - i,
    {
        let ghost pre = v@.take(i as int);
        assert(v@.take(i + 1).drop_last() =~= pre);
        assert(v@.take(i + 1).last() == v@[i as int]);
        if v[i] == '\n' {
            txt_line(&mut body, &mut par, line.as_slice());
            assert(split_state(pre).0.push(split_state(pre).1).drop_last() =~= split_state(pre).0);
            line.clear();
            assert(line@ =~= Seq::<char>::empty());
        } else {
            line.push(v[i]);
        }
        i = i + 1;
    }
    assert(v@.take(v@.len() as int) =~= v@);
    txt_line(&mut body, &mut par, line.as_slice());
    assert(lines_of(text@).drop_last() =~= split_state(text@).0);
    if par.len() > 0 {
        flush_paragraph(&mut body, &mut par);
    }
    let mut html = String::from_str("<article class=\"txt-book\">");
    if body.as_str().is_empty() {
        html.append("<p></p>");
    } else {
        html.append(body.as_str());
    }
    html.append("</article>");
    assert(html@ =~= txt_html(text@));
    html
}

/// The text of a plain-text file's bytes: UTF-8, or decoded lossily.
pub open spec fn txt_text(bytes: Seq<u8>) -> Seq<char> {
    if valid_utf8(bytes) {
        decode_utf8(bytes)
    } else {
        utf8_lossy(bytes)
    }
}

/// A plain-text book: its paragraphs as HTML, with no contents, title,
/// author or cover of its own.
pub fn parse(bytes: &[u8]) -> (r: ParsedBook)
    ensures
        r.html@ == txt_html(txt_text(bytes@)),
        r.toc@.len() == 0,
        r.title is None,
        r.author is None,
        r.cover is None,
{
    let text = decode_text(bytes);
    let html = text_to_html(text.as_str());
    ParsedBook { html, toc: Vec::new(), title: None, author: None, cover: None }
}

} // verus!
