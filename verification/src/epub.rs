//! EPUB books: chapters from the spine, images inlined as data URLs, heading
//! ids guaranteed, and the richest of several tables of contents.
use crate::encoding::{base64_encoded, encode_base64};
use crate::formats::{cover_view, path_title, title_from_path, BookMeta, CoverImage, ParsedBook};
use crate::html_util::{
    body_inner, ensure_heading_ids, extract_body_inner, extract_headings, first_heading_text,
    heading_ids_spec, headings_spec, headings_view, mime_for_path, mime_from_path, HeadingView,
};
use crate::models::{toc_view, TocEntry, TocView};
use crate::pattern::{
    group, group_or_empty, group_or_empty_str, regex_captures, regex_spans, replace_matches, replaced_all,
    slice_str, spans_ok, spans_view, whole, byte_slice, Spans,
};
use crate::text::{
    ascii_lower, chars_eq, chars_of, push_char, decimal, has_prefix, has_suffix, push_decimal, split_by,
    split_state_by,
    split_chars, starts_with, ends_with, string_of, trim, trim_chars, lower_chars,
};
use vstd::prelude::*;

verus! {

// ---------------------------------------------------------------------------
// What is read from the EPUB container
// ---------------------------------------------------------------------------

/// A manifest resource that was read: its href, declared media type and bytes.
#[derive(Debug, Clone)]
pub struct EpubResource {
    pub href: String,
    pub media_type: String,
    pub bytes: Vec<u8>,
}

/// A spine item: its href and XHTML text.
#[derive(Debug, Clone)]
pub struct EpubChapter {
    pub href: String,
    pub content: String,
}

/// A navigation entry with its children.
#[derive(Debug)]
pub struct EpubTocNode {
    pub label: String,
    pub href: Option<String>,
    pub children: Vec<EpubTocNode>,
}

/// The parts of an EPUB the reader uses.
#[derive(Debug)]
pub struct EpubSource {
    /// The title in the metadata.
    pub title: Option<String>,
    /// The first creator in the metadata.
    pub creator: Option<String>,
    /// The manifest cover image, when it could be read.
    pub cover: Option<EpubResource>,
    /// Manifest images that could be read.
    pub images: Vec<EpubResource>,
    /// Spine items in reading order.
    pub chapters: Vec<EpubChapter>,
    /// The preferred table of contents.
    pub toc_contents: Option<EpubTocNode>,
    /// The EPUB 2 (NCX) table of contents.
    pub toc_epub2: Option<EpubTocNode>,
    /// The EPUB 3 (nav) table of contents.
    pub toc_epub3: Option<EpubTocNode>,
}

// ---------------------------------------------------------------------------
// Hrefs
// ---------------------------------------------------------------------------

/// One path segment applied to the segments kept so far.
pub open spec fn seg_step(stack: Seq<Seq<char>>, seg: Seq<char>) -> Seq<Seq<char>> {
    if seg.len() == 0 || seg == seq!['.'] {
        stack
    } else if seg == seq!['.', '.'] {
        if stack.len() > 0 {
            stack.drop_last()
        } else {
            stack
        }
    } else {
        stack.push(seg)
    }
}

pub open spec fn seg_fold(segs: Seq<Seq<char>>) -> Seq<Seq<char>>
    decreases segs.len(),
{
    if segs.len() == 0 {
        Seq::empty()
    } else {
        seg_step(seg_fold(segs.drop_last()), segs.last())
    }
}

/// Segments joined by `/`.
pub open spec fn join_slash(ps: Seq<Seq<char>>) -> Seq<char>
    decreases ps.len(),
{
    if ps.len() == 0 {
        Seq::empty()
    } else if ps.len() == 1 {
        ps[0]
    } else {
        join_slash(ps.drop_last()) + seq!['/'] + ps.last()
    }
}

/// Backslashes read as slashes.
pub open spec fn slashes(s: Seq<char>) -> Seq<char> {
    s.map_values(|c: char| if c == '\\' { '/' } else { c })
}

/// An href reduced for matching: fragment dropped, trimmed, backslashes as
/// slashes, empty and `.` segments dropped, `..` removing the segment before;
/// the result starts with `/`, or is empty for an empty href.
pub open spec fn normalized(href: Seq<char>) -> Seq<char> {
    let u = slashes(trim(split_by(href, '#')[0]));
    if u.len() == 0 {
        Seq::empty()
    } else {
        seq!['/'] + join_slash(seg_fold(split_by(u, '/')))
    }
}

/// `s` holds no `c`.
pub open spec fn lacks(s: Seq<char>, c: char) -> bool {
    forall|i: int| 0 <= i < s.len() ==> s[i] != c
}

/// A segment kept by `normalized`: not empty, not `.` or `..`, and without
/// `/`, `#` or `\`.
pub open spec fn kept_segment(g: Seq<char>) -> bool {
    &&& g.len() > 0
    &&& g != seq!['.']
    &&& g != seq!['.', '.']
    &&& lacks(g, '/')
    &&& lacks(g, '#')
    &&& lacks(g, '\\')
}

pub open spec fn all_kept(st: Seq<Seq<char>>) -> bool {
    forall|i: int| 0 <= i < st.len() ==> kept_segment(#[trigger] st[i])
}

/// The pieces of a split hold no separator, nor any character the text lacks.
proof fn lemma_split_pieces(x: Seq<char>, c: char, d: char)
    ensures
        forall|i: int|
            0 <= i < split_state_by(x, c).0.len() ==> lacks(#[trigger] split_state_by(x, c).0[i], c),
        lacks(split_state_by(x, c).1, c),
        lacks(x, d) ==> forall|i: int|
            0 <= i < split_state_by(x, c).0.len() ==> lacks(#[trigger] split_state_by(x, c).0[i], d),
        lacks(x, d) ==> lacks(split_state_by(x, c).1, d),
    decreases x.len(),
{
    if x.len() > 0 {
        let y = x.drop_last();
        if lacks(x, d) {
            assert(lacks(y, d)) by {
                assert forall|i: int| 0 <= i < y.len() implies y[i] != d by {
                    assert(y[i] == x[i]);
                }
            }
            assert(x.last() == x[x.len() - 1]);
        }
        lemma_split_pieces(y, c, d);
        let st = split_state_by(y, c);
        if x.last() != c {
            assert forall|i: int| 0 <= i < st.1.push(x.last()).len() implies st.1.push(x.last())[i]
                != c by {
                if i < st.1.len() {
                    assert(st.1.push(x.last())[i] == st.1[i]);
                }
            }
            if lacks(x, d) {
                assert(x.last() == x[x.len() - 1]);
                assert forall|i: int| 0 <= i < st.1.push(x.last()).len() implies st.1.push(
                    x.last(),
                )[i] != d by {
                    if i < st.1.len() {
                        assert(st.1.push(x.last())[i] == st.1[i]);
                    }
                }
            }
        } else {
            assert forall|i: int| 0 <= i < st.0.push(st.1).len() implies lacks(
                #[trigger] st.0.push(st.1)[i],
                c,
            ) by {
                if i < st.0.len() {
                    assert(st.0.push(st.1)[i] == st.0[i]);
                }
            }
            if lacks(x, d) {
                assert forall|i: int| 0 <= i < st.0.push(st.1).len() implies lacks(
                    #[trigger] st.0.push(st.1)[i],
                    d,
                ) by {
                    if i < st.0.len() {
                        assert(st.0.push(st.1)[i] == st.0[i]);
                    }
                }
            }
        }
    }
}

proof fn lemma_split_by_pieces(x: Seq<char>, c: char, d: char)
    ensures
        forall|i: int| 0 <= i < split_by(x, c).len() ==> lacks(#[trigger] split_by(x, c)[i], c),
        lacks(x, d) ==> forall|i: int|
            0 <= i < split_by(x, c).len() ==> lacks(#[trigger] split_by(x, c)[i], d),
{
    lemma_split_pieces(x, c, d);
    let st = split_state_by(x, c);
    assert forall|i: int| 0 <= i < split_by(x, c).len() implies lacks(
        #[trigger] split_by(x, c)[i],
        c,
    ) by {
        if i < st.0.len() {
            assert(split_by(x, c)[i] == st.0[i]);
        }
    }
    if lacks(x, d) {
        assert forall|i: int| 0 <= i < split_by(x, c).len() implies lacks(
            #[trigger] split_by(x, c)[i],
            d,
        ) by {
            if i < st.0.len() {
                assert(split_by(x, c)[i] == st.0[i]);
            }
        }
    }
}

/// Folding keeps only segments that pass `seg_step`'s test, taken from the input.
proof fn lemma_seg_fold_kept(segs: Seq<Seq<char>>)
    requires
        forall|i: int|
            0 <= i < segs.len() ==> lacks(#[trigger] segs[i], '/') && lacks(segs[i], '#') && lacks(
                segs[i],
                '\\',
            ),
    ensures
        all_kept(seg_fold(segs)),
    decreases segs.len(),
{
    if segs.len() > 0 {
        let init = segs.drop_last();
        assert forall|i: int| 0 <= i < init.len() implies lacks(#[trigger] init[i], '/') && lacks(
            init[i],
            '#',
        ) && lacks(init[i], '\\') by {
            assert(init[i] == segs[i]);
        }
        lemma_seg_fold_kept(init);
        let st = seg_fold(init);
        let g = segs.last();
        assert(g == segs[segs.len() - 1]);
        let r = seg_step(st, g);
        assert forall|i: int| 0 <= i < r.len() implies kept_segment(#[trigger] r[i]) by {
            if i < st.len() {
                assert(r[i] == st[i]);
            }
        }
    }
}

/// Splitting after a run without the separator extends the current piece.
proof fn lemma_split_state_append(a: Seq<char>, b: Seq<char>, c: char)
    requires
        lacks(b, c),
    ensures
        split_state_by(a + b, c) == (split_state_by(a, c).0, split_state_by(a, c).1 + b),
    decreases b.len(),
{
    if b.len() == 0 {
        assert(a + b =~= a);
        assert(split_state_by(a, c).1 + b =~= split_state_by(a, c).1);
    } else {
        let b0 = b.drop_last();
        assert(lacks(b0, c)) by {
            assert forall|i: int| 0 <= i < b0.len() implies b0[i] != c by {
                assert(b0[i] == b[i]);
            }
        }
        lemma_split_state_append(a, b0, c);
        assert((a + b).drop_last() =~= a + b0);
        assert((a + b).last() == b[b.len() - 1]);
        assert(split_state_by(a, c).1 + b0.push(b.last()) =~= split_state_by(a, c).1 + b);
        assert(b0.push(b.last()) =~= b);
    }
}

/// `/` followed by kept segments joined by `/` splits back into an empty
/// piece and those segments.
proof fn lemma_split_slash_join(st: Seq<Seq<char>>)
    requires
        st.len() >= 1,
        all_kept(st),
    ensures
        split_by(seq!['/'] + join_slash(st), '/') == seq![Seq::<char>::empty()] + st,
    decreases st.len(),
{
    let e = Seq::<char>::empty();
    assert(split_state_by(e, '/') == (Seq::<Seq<char>>::empty(), e));
    let one = seq!['/'];
    assert(one.drop_last() =~= e);
    assert(split_state_by(one, '/') == (seq![e], e));
    assert(kept_segment(st[st.len() - 1]));
    if st.len() == 1 {
        lemma_split_state_append(one, st[0], '/');
        assert(join_slash(st) == st[0]);
        assert(seq![e] + st =~= seq![e].push(st[0]));
        assert(e + st[0] =~= st[0]);
    } else {
        let init = st.drop_last();
        assert(all_kept(init)) by {
            assert forall|i: int| 0 <= i < init.len() implies kept_segment(#[trigger] init[i]) by {
                assert(init[i] == st[i]);
            }
        }
        lemma_split_slash_join(init);
        let z = one + join_slash(init);
        let y = z + one;
        assert(y.drop_last() =~= z);
        assert(y.last() == '/');
        assert(split_state_by(y, '/') == (split_by(z, '/'), e));
        lemma_split_state_append(y, st.last(), '/');
        assert(one + join_slash(st) =~= y + st.last());
        assert(seq![e] + st =~= (seq![e] + init).push(st.last()));
        assert(e + st.last() =~= st.last());
    }
}

/// Folding an empty piece followed by kept segments gives those segments.
proof fn lemma_seg_fold_kept_all(st: Seq<Seq<char>>)
    requires
        all_kept(st),
    ensures
        seg_fold(seq![Seq::<char>::empty()] + st) == st,
    decreases st.len(),
{
    let e = Seq::<char>::empty();
    if st.len() == 0 {
        assert(seq![e] + st =~= seq![e]);
        assert(seq![e].drop_last() =~= Seq::<Seq<char>>::empty());
        assert(seg_fold(Seq::<Seq<char>>::empty()) == Seq::<Seq<char>>::empty());
        assert(seq![e].last() == e);
        assert(seg_fold(seq![e]) == seg_step(Seq::<Seq<char>>::empty(), e));
    } else {
        let init = st.drop_last();
        assert(all_kept(init)) by {
            assert forall|i: int| 0 <= i < init.len() implies kept_segment(#[trigger] init[i]) by {
                assert(init[i] == st[i]);
            }
        }
        lemma_seg_fold_kept_all(init);
        assert((seq![e] + st).drop_last() =~= seq![e] + init);
        assert((seq![e] + st).last() == st.last());
        assert(kept_segment(st[st.len() - 1]));
        assert(st.last() == st[st.len() - 1]);
        assert(seg_fold(seq![e] + st) == seg_step(seg_fold(seq![e] + init), st.last()));
        assert(seg_step(init, st.last()) == init.push(st.last()));
        assert(init.push(st.last()) =~= st);
    }
}

/// Kept segments joined by `/` hold no `#` or `\`.
proof fn lemma_join_clean(st: Seq<Seq<char>>)
    requires
        all_kept(st),
    ensures
        lacks(join_slash(st), '#'),
        lacks(join_slash(st), '\\'),
    decreases st.len(),
{
    if st.len() > 1 {
        let init = st.drop_last();
        assert(all_kept(init)) by {
            assert forall|i: int| 0 <= i < init.len() implies kept_segment(#[trigger] init[i]) by {
                assert(init[i] == st[i]);
            }
        }
        lemma_join_clean(init);
        assert(kept_segment(st[st.len() - 1]));
        let a = join_slash(init) + seq!['/'];
        let j = a + st.last();
        assert forall|i: int| 0 <= i < j.len() implies j[i] != '#' && j[i] != '\\' by {
            if i < join_slash(init).len() {
                assert(j[i] == join_slash(init)[i]);
            } else if i == join_slash(init).len() {
                assert(j[i] == '/');
            } else {
                assert(j[i] == st.last()[i - a.len()]);
            }
        }
    } else if st.len() == 1 {
        assert(kept_segment(st[0]));
    }
}

/// The part of an href before `#`, trimmed, with `\` read as `/`.
pub open spec fn href_path(href: Seq<char>) -> Seq<char> {
    slashes(trim(split_by(href, '#')[0]))
}

proof fn lemma_href_path_clean(href: Seq<char>)
    ensures
        lacks(href_path(href), '#'),
        lacks(href_path(href), '\\'),
{
    lemma_split_by_pieces(href, '#', '#');
    let p = split_by(href, '#')[0];
    assert(lacks(p, '#'));
    crate::text::lemma_lead_ws(p);
    let ts = p.skip(crate::text::lead_ws(p) as int);
    crate::text::lemma_trail_ws(ts);
    let t = trim(p);
    assert(lacks(t, '#')) by {
        assert forall|i: int| 0 <= i < t.len() implies t[i] != '#' by {
            assert(t[i] == p[i + crate::text::lead_ws(p)]);
        }
    }
    let u = href_path(href);
    assert forall|i: int| 0 <= i < u.len() implies u[i] != '#' && u[i] != '\\' by {
        assert(u[i] == (if t[i] == '\\' { '/' } else { t[i] }));
    }
}

/// The segment laws of `normalized`: empty exactly for an href that is empty
/// once its fragment is dropped and it is trimmed; otherwise `/` followed by
/// kept segments (no empty, `.` or `..` segment) joined by `/`, with no `#` and
/// no `\`.
pub proof fn lemma_normalized_shape(href: Seq<char>)
    ensures
        normalized(href).len() == 0 <==> href_path(href).len() == 0,
        lacks(normalized(href), '#'),
        lacks(normalized(href), '\\'),
        normalized(href).len() > 0 ==> exists|st: Seq<Seq<char>>|
            all_kept(st) && normalized(href) == seq!['/'] + join_slash(st),
{
    let u = href_path(href);
    if u.len() > 0 {
        lemma_href_path_clean(href);
        lemma_split_by_pieces(u, '/', '#');
        lemma_split_by_pieces(u, '/', '\\');
        let segs = split_by(u, '/');
        lemma_seg_fold_kept(segs);
        let st = seg_fold(segs);
        lemma_join_clean(st);
        let r = normalized(href);
        assert(r == seq!['/'] + join_slash(st));
        assert forall|i: int| 0 <= i < r.len() implies r[i] != '#' && r[i] != '\\' by {
            if i > 0 {
                assert(r[i] == join_slash(st)[i - 1]);
            }
        }
    }
}

/// Normalizing twice changes nothing, for an href whose normal form does not
/// end in white space.
pub proof fn lemma_normalized_idempotent(href: Seq<char>)
    requires
        trim(normalized(href)) == normalized(href),
    ensures
        normalized(normalized(href)) == normalized(href),
{
    let r = normalized(href);
    lemma_normalized_shape(href);
    if r.len() == 0 {
        assert(split_by(r, '#') =~= seq![r]);
        assert(trim(r).len() == 0);
    } else {
        let st = choose|st: Seq<Seq<char>>| all_kept(st) && r == seq!['/'] + join_slash(st);
        lemma_split_state_append(Seq::<char>::empty(), r, '#');
        assert(Seq::<char>::empty() + r =~= r);
        assert(split_by(r, '#') =~= seq![r]);
        assert(slashes(r) =~= r);
        assert(href_path(r) == r);
        let e = Seq::<char>::empty();
        if st.len() == 0 {
            assert(join_slash(st) == e);
            assert(r =~= seq!['/']);
            assert(r.drop_last() =~= e);
            assert(r.last() == '/');
            assert(split_state_by(e, '/') == (Seq::<Seq<char>>::empty(), e));
            assert(split_state_by(r, '/') == (seq![e], e));
            assert(split_by(r, '/') =~= seq![e, e]);
            assert(seq![e, e] =~= seq![e] + seq![e]);
            assert(seq![e] + st =~= seq![e]);
            lemma_seg_fold_kept_all(st);
            assert(seg_fold(seq![e]) == st);
            assert(seq![e, e].drop_last() =~= seq![e]);
            assert(seq![e, e].last() == e);
            assert(seg_fold(seq![e, e]) == seg_step(seg_fold(seq![e]), e));
            assert(seg_fold(split_by(r, '/')) == st);
        } else {
            lemma_split_slash_join(st);
            lemma_seg_fold_kept_all(st);
            assert(seg_fold(split_by(r, '/')) == st);
        }
        assert(normalized(r) == seq!['/'] + join_slash(seg_fold(split_by(r, '/'))));
    }
}

pub fn normalize_href(href: &str) -> (r: String)
    ensures
        r@ == normalized(href@),
{
    let pieces = split_chars(chars_of(href).as_slice(), '#');
    assert(split_by(href@, '#').len() >= 1);
    assert(pieces@.map_values(|v: Vec<char>| v@).len() == pieces@.len());
    assert(pieces@.map_values(|v: Vec<char>| v@)[0] == pieces@[0]@);
    let t = trim_chars(pieces[0].as_slice());
    let mut u: Vec<char> = Vec::new();
    let mut i: usize = 0;
    while i < t.len()
        invariant
            i <= t@.len(),
            u@ == slashes(t@.take(i as int)),
        decreases t@.len() - i,
    {
        if t[i] == '\\' {
            u.push('/');
        } else {
            u.push(t[i]);
        }
        i = i + 1;
        assert(u@ =~= slashes(t@.take(i as int)));
    }
    assert(t@.take(t@.len() as int) =~= t@);
    if u.len() == 0 {
        return String::new();
    }
    let segs = split_chars(u.as_slice(), '/');
    let ghost sv = segs@.map_values(|v: Vec<char>| v@);
    let mut stack: Vec<Vec<char>> = Vec::new();
    let mut k: usize = 0;
    while k < segs.len()
        invariant
            k <= segs@.len(),
            sv == segs@.map_values(|v: Vec<char>| v@),
            stack@.map_values(|v: Vec<char>| v@) == seg_fold(sv.take(k as int)),
        decreases segs@.len() - k,
    {
        assert(sv.take(k + 1).drop_last() =~= sv.take(k as int));
        assert(sv.take(k + 1).last() == segs@[k as int]@);
        let seg = &segs[k];
        let is_dot = seg.len() == 1 && seg[0] == '.';
        let is_dotdot = seg.len() == 2 && seg[0] == '.' && seg[1] == '.';
        assert(is_dot == (seg@ == seq!['.'])) by {
            if seg@ == seq!['.'] {
                assert(seg@[0] == '.');
            }
            if is_dot {
                assert(seg@ =~= seq!['.']);
            }
        }
        assert(is_dotdot == (seg@ == seq!['.', '.'])) by {
            if seg@ == seq!['.', '.'] {
                assert(seg@[0] == '.' && seg@[1] == '.');
            }
            if is_dotdot {
                assert(seg@ =~= seq!['.', '.']);
            }
        }
        if seg.len() == 0 || is_dot {
        } else if is_dotdot {
            if stack.len() > 0 {
                stack.pop();
            }
        } else {
            stack.push(seg.clone());
        }
        k = k + 1;
        assert(stack@.map_values(|v: Vec<char>| v@) =~= seg_fold(sv.take(k as int)));
    }
    assert(sv.take(segs@.len() as int) =~= sv);
    let ghost st = stack@.map_values(|v: Vec<char>| v@);
    let mut out = String::new();
    push_char(&mut out, '/');
    let mut j: usize = 0;
    while j < stack.len()
        invariant
            j <= stack@.len(),
            st == stack@.map_values(|v: Vec<char>| v@),
            out@ == seq!['/'] + join_slash(st.take(j as int)),
        decreases stack@.len() - j,
    {
        assert(st.take(j + 1).drop_last() =~= st.take(j as int));
        assert(st.take(j + 1).last() == stack@[j as int]@);
        if j > 0 {
            push_char(&mut out, '/');
        }
        let w = string_of(stack[j].as_slice());
        out.append(w.as_str());
        j = j + 1;
        assert(out@ =~= seq!['/'] + join_slash(st.take(j as int)));
    }
    assert(st.take(stack@.len() as int) =~= st);
    out
}

/// The id of the `i`-th chapter section.
pub open spec fn chapter_id(i: nat) -> Seq<char> {
    "chapter-"@ + decimal(i)
}

fn chapter_id_exec(i: usize) -> (r: String)
    ensures
        r@ == chapter_id(i as nat),
{
    let mut s = String::from_str("chapter-");
    push_decimal(&mut s, i);
    s
}

/// A chapter href and a normalized href refer to the same file.
pub open spec fn hrefs_match(h: Seq<char>, key: Seq<char>) -> bool {
    h == key || has_suffix(h, key) || has_suffix(key, h)
}

/// The first chapter, from index `i` on, whose href matches `key`.
pub open spec fn find_chapter(hrefs: Seq<Seq<char>>, key: Seq<char>, i: int) -> Option<int>
    decreases hrefs.len() - i,
{
    if i < 0 || i >= hrefs.len() {
        None
    } else if hrefs_match(hrefs[i], key) {
        Some(i)
    } else {
        find_chapter(hrefs, key, i + 1)
    }
}

/// The element id a navigation href points to: the matching chapter, else the
/// href's fragment, else the first chapter.
pub open spec fn chapter_id_for(href: Seq<char>, hrefs: Seq<Seq<char>>) -> Seq<char> {
    match find_chapter(hrefs, normalized(href), 0) {
        Some(i) => chapter_id(i as nat),
        None => {
            let parts = split_by(href, '#');
            if parts.len() > 1 && parts[1].len() > 0 {
                parts[1]
            } else {
                "chapter-0"@
            }
        },
    }
}

pub open spec fn strings_view(v: Seq<String>) -> Seq<Seq<char>> {
    v.map_values(|s: String| s@)
}

pub fn href_to_chapter_id(href: &str, chapter_hrefs: &Vec<String>) -> (r: String)
    ensures
        r@ == chapter_id_for(href@, strings_view(chapter_hrefs@)),
{
    let ghost hv = strings_view(chapter_hrefs@);
    let key = normalize_href(href);
    let kv = chars_of(key.as_str());
    let mut i: usize = 0;
    while i < chapter_hrefs.len()
        invariant
            i <= chapter_hrefs@.len(),
            hv == strings_view(chapter_hrefs@),
            kv@ == normalized(href@),
            find_chapter(hv, kv@, 0) == find_chapter(hv, kv@, i as int),
        decreases chapter_hrefs@.len() - i,
    {
        let h = chars_of(chapter_hrefs[i].as_str());
        assert(hv[i as int] == h@);
        if chars_eq(h.as_slice(), kv.as_slice()) || ends_with(h.as_slice(), kv.as_slice())
            || ends_with(kv.as_slice(), h.as_slice()) {
            return chapter_id_exec(i);
        }
        i = i + 1;
    }
    let parts = split_chars(chars_of(href).as_slice(), '#');
    let ghost pv = parts@.map_values(|v: Vec<char>| v@);
    if parts.len() > 1 && parts[1].len() > 0 {
        assert(pv[1] == parts@[1]@);
        return string_of(parts[1].as_slice());
    }
    String::from_str("chapter-0")
}

// ---------------------------------------------------------------------------
// Cover and images
// ---------------------------------------------------------------------------

/// The declared media type when it is an image type, else one guessed from the href.
pub open spec fn resource_mime(r: EpubResource) -> Seq<char> {
    if has_prefix(r.media_type@, "image/"@) {
        r.media_type@
    } else {
        mime_for_path(r.href@)
    }
}

fn resource_mime_exec(r: &EpubResource) -> (m: String)
    ensures
        m@ == resource_mime(*r),
{
    let image = chars_of("image/");
    if starts_with(chars_of(r.media_type.as_str()).as_slice(), image.as_slice()) {
        r.media_type.clone()
    } else {
        String::from_str(mime_from_path(r.href.as_str()))
    }
}

/// The cover image, unless it is empty.
pub open spec fn cover_of(c: Option<EpubResource>) -> Option<(Seq<u8>, Seq<char>)> {
    match c {
        None => None,
        Some(r) => if r.bytes@.len() == 0 {
            None
        } else {
            Some((r.bytes@, resource_mime(r)))
        },
    }
}

fn extract_cover(source: &EpubSource) -> (r: Option<CoverImage>)
    ensures
        cover_view(r) == cover_of(source.cover),
{
    match &source.cover {
        None => None,
        Some(c) => {
            if c.bytes.len() == 0 {
                None
            } else {
                Some(CoverImage { bytes: c.bytes.clone(), mime: resource_mime_exec(c) })
            }
        },
    }
}

/// Images whose base64 form fits in memory.
pub open spec fn images_fit(imgs: Seq<EpubResource>) -> bool {
    forall|i: int| 0 <= i < imgs.len() ==> (#[trigger] imgs[i]).bytes@.len() <= usize::MAX / 2
}

/// The data URL of an image.
pub open spec fn data_url(r: EpubResource) -> Seq<char> {
    "data:"@ + resource_mime(r) + ";base64,"@ + base64_encoded(r.bytes@)
}

/// Entries `(key, data URL)` of the first `n` images: each non-empty image under
/// its normalized href, and again without the leading `/`.
pub open spec fn image_entries(imgs: Seq<EpubResource>, n: int) -> Seq<(Seq<char>, Seq<char>)>
    decreases n,
{
    if n <= 0 {
        Seq::empty()
    } else {
        let prev = image_entries(imgs, n - 1);
        let r = imgs[n - 1];
        if r.bytes@.len() == 0 {
            prev
        } else {
            let k = normalized(r.href@);
            let d = data_url(r);
            let with_slash = prev.push((k, d));
            if has_prefix(k, seq!['/']) {
                with_slash.push((k.skip(1), d))
            } else {
                with_slash
            }
        }
    }
}

/// The data URL stored last under `key`.
pub open spec fn lookup_image(map: Seq<(Seq<char>, Seq<char>)>, key: Seq<char>) -> Option<Seq<char>>
    decreases map.len(),
{
    if map.len() == 0 {
        None
    } else if map.last().0 == key {
        Some(map.last().1)
    } else {
        lookup_image(map.drop_last(), key)
    }
}

pub open spec fn pairs_view(v: Seq<(String, String)>) -> Seq<(Seq<char>, Seq<char>)> {
    v.map_values(|p: (String, String)| (p.0@, p.1@))
}

fn build_image_map(images: &Vec<EpubResource>) -> (r: Vec<(String, String)>)
    requires
        images_fit(images@),
    ensures
        pairs_view(r@) == image_entries(images@, images@.len() as int),
{
    let mut map: Vec<(String, String)> = Vec::new();
    let mut i: usize = 0;
    while i < images.len()
        invariant
            i <= images@.len(),
            images_fit(images@),
            pairs_view(map@) == image_entries(images@, i as int),
        decreases images@.len() - i,
    {
        let image = &images[i];
        assert(image.bytes@.len() <= usize::MAX / 2);
        if image.bytes.len() > 0 {
            let mut url = String::from_str("data:");
            let mime = resource_mime_exec(image);
            url.append(mime.as_str());
            url.append(";base64,");
            let b64 = encode_base64(image.bytes.as_slice());
            url.append(b64.as_str());
            assert(url@ =~= data_url(*image));
            let href = normalize_href(image.href.as_str());
            let hv = chars_of(href.as_str());
            let slash = chars_of("/");
            proof {
                reveal_strlit("/");
                assert(slash@ =~= seq!['/']);
            }
            let starts = starts_with(hv.as_slice(), slash.as_slice());
            map.push((href, url.clone()));
            if starts {
                let stripped = crate::text::string_of_range(hv.as_slice(), 1, hv.len());
                assert(stripped@ =~= hv@.skip(1));
                map.push((stripped, url));
            }
        }
        i = i + 1;
        assert(pairs_view(map@) =~= image_entries(images@, i as int));
    }
    map
}

fn lookup_image_exec(map: &Vec<(String, String)>, key: &[char]) -> (r: Option<String>)
    ensures
        r.deep_view() == lookup_image(pairs_view(map@), key@),
{
    let mut n = map.len();
    assert(pairs_view(map@).take(n as int) =~= pairs_view(map@));
    while n > 0
        invariant
            n <= map@.len(),
            lookup_image(pairs_view(map@), key@) == lookup_image(
                pairs_view(map@).take(n as int),
                key@,
            ),
        decreases n,
    {
        let ghost t = pairs_view(map@).take(n as int);
        assert(t.last() == pairs_view(map@)[n - 1]);
        assert(t.drop_last() =~= pairs_view(map@).take(n - 1));
        let k = chars_of(map[n - 1].0.as_str());
        if chars_eq(k.as_slice(), key) {
            return Some(map[n - 1].1.clone());
        }
        n = n - 1;
    }
    None
}


// ---------------------------------------------------------------------------
// Chapter HTML
// ---------------------------------------------------------------------------

/// `src=`/`href=` attributes with a quoted value.
pub open spec fn src_attr_pattern() -> Seq<char> {
    "(?i)(\\b(?:src|href)\\s*=\\s*)([\"'])([^\"']+)([\"'])"@
}

fn src_attr_pattern_str() -> (p: &'static str)
    ensures
        p@ == src_attr_pattern(),
{
    "(?i)(\\b(?:src|href)\\s*=\\s*)([\"'])([^\"']+)([\"'])"
}

/// `<link ... rel="stylesheet" ...>` tags.
pub open spec fn stylesheet_pattern() -> Seq<char> {
    "(?is)<link\\b[^>]*rel\\s*=\\s*[\"']?stylesheet[\"']?[^>]*/?>"@
}

fn stylesheet_pattern_str() -> (p: &'static str)
    ensures
        p@ == stylesheet_pattern(),
{
    "(?is)<link\\b[^>]*rel\\s*=\\s*[\"']?stylesheet[\"']?[^>]*/?>"
}

/// The data URL for an attribute value: by normalized href, by the value as
/// written, or by the normalized href without its leading `/`.
pub open spec fn image_source_for(value: Seq<char>, map: Seq<(Seq<char>, Seq<char>)>) -> Option<Seq<char>> {
    let key = normalized(value);
    match lookup_image(map, key) {
        Some(d) => Some(d),
        None => match lookup_image(map, value) {
            Some(d) => Some(d),
            None => if has_prefix(key, seq!['/']) {
                lookup_image(map, key.skip(1))
            } else {
                None
            },
        },
    }
}

/// What a matched attribute becomes: data, http and https values stay; others
/// that name a known image get its data URL.
pub open spec fn src_replacement(text: Seq<char>, c: Spans, map: Seq<(Seq<char>, Seq<char>)>) -> Seq<char> {
    let value = group_or_empty(text, c, 3);
    let all = byte_slice(text, whole(c).0 as int, whole(c).1 as int);
    if has_prefix(value, "data:"@) || has_prefix(value, "http://"@) || has_prefix(value, "https://"@) {
        all
    } else {
        match image_source_for(value, map) {
            Some(d) => group_or_empty(text, c, 1) + group_or_empty(text, c, 2) + d + group_or_empty(
                text,
                c,
                4,
            ),
            None => all,
        }
    }
}

/// The attribute name, `=` and opening quote of a matched image reference.
pub open spec fn attr_head(text: Seq<char>, c: Spans) -> Seq<char> {
    group_or_empty(text, c, 1) + group_or_empty(text, c, 2)
}

/// Rewriting an image reference replaces only its quoted value: the result
/// starts with the attribute name and opening quote, holds the image's data
/// URL right after them, and ends with the closing quote, with nothing else.
/// A value that is already a data or web URL, or names no known image, stays
/// as matched.
pub proof fn lemma_src_replacement_keeps_quotes(
    text: Seq<char>,
    c: Spans,
    map: Seq<(Seq<char>, Seq<char>)>,
    d: Seq<char>,
)
    requires
        !has_prefix(group_or_empty(text, c, 3), "data:"@),
        !has_prefix(group_or_empty(text, c, 3), "http://"@),
        !has_prefix(group_or_empty(text, c, 3), "https://"@),
        image_source_for(group_or_empty(text, c, 3), map) == Some(d),
    ensures
        has_prefix(src_replacement(text, c, map), attr_head(text, c)),
        has_suffix(src_replacement(text, c, map), group_or_empty(text, c, 4)),
        src_replacement(text, c, map).subrange(
            attr_head(text, c).len() as int,
            (attr_head(text, c).len() + d.len()) as int,
        ) == d,
        src_replacement(text, c, map).len() == attr_head(text, c).len() + d.len()
            + group_or_empty(text, c, 4).len(),
{
    let r = src_replacement(text, c, map);
    let h = attr_head(text, c);
    let q = group_or_empty(text, c, 4);
    assert(r =~= h + d + q);
    assert(r.subrange(0, h.len() as int) =~= h);
    assert(r.subrange(r.len() - q.len(), r.len() as int) =~= q);
    assert(r.subrange(h.len() as int, (h.len() + d.len()) as int) =~= d);
}

/// A value that is already a data or web URL, or that names no known image,
/// is left exactly as matched.
pub proof fn lemma_src_replacement_unchanged(text: Seq<char>, c: Spans, map: Seq<(Seq<char>, Seq<char>)>)
    requires
        has_prefix(group_or_empty(text, c, 3), "data:"@) || has_prefix(group_or_empty(text, c, 3), "http://"@)
            || has_prefix(group_or_empty(text, c, 3), "https://"@) || image_source_for(
            group_or_empty(text, c, 3),
            map,
        ) is None,
    ensures
        src_replacement(text, c, map) == byte_slice(text, whole(c).0 as int, whole(c).1 as int),
{
}

/// Image references replaced by data URLs.
pub open spec fn rewritten_sources(text: Seq<char>, map: Seq<(Seq<char>, Seq<char>)>) -> Seq<char> {
    match regex_spans(src_attr_pattern(), text) {
        None => text,
        Some(ms) => replaced_all(text, ms, Seq::new(ms.len(), |i: int| src_replacement(text, ms[i], map))),
    }
}

fn has_prefix_lit(v: &Vec<char>, p: &str) -> (b: bool)
    ensures
        b == has_prefix(v@, p@),
{
    starts_with(v.as_slice(), chars_of(p).as_slice())
}

fn src_replacement_exec(
    text: &str,
    ms: &Vec<Vec<Option<(usize, usize)>>>,
    i: usize,
    map: &Vec<(String, String)>,
) -> (r: String)
    requires
        i < ms@.len(),
        spans_ok(text@, spans_view(ms@)),
    ensures
        r@ == src_replacement(text@, ms@[i as int]@, pairs_view(map@)),
{
    let ghost c = ms@[i as int]@;
    assert(spans_view(ms@)[i as int] == c);
    let value = group_or_empty_str(text, ms, i, 3);
    let sp = ms[i][0].unwrap();
    let all = slice_str(text, sp.0, sp.1);
    let vv = chars_of(value);
    if has_prefix_lit(&vv, "data:") || has_prefix_lit(&vv, "http://") || has_prefix_lit(&vv, "https://") {
        return all.to_owned();
    }
    let key = normalize_href(value);
    let kv = chars_of(key.as_str());
    let mut data = lookup_image_exec(map, kv.as_slice());
    if data.is_none() {
        data = lookup_image_exec(map, vv.as_slice());
    }
    if data.is_none() {
        let slash = chars_of("/");
        proof {
            reveal_strlit("/");
            assert(slash@ =~= seq!['/']);
        }
        if starts_with(kv.as_slice(), slash.as_slice()) {
            let rest = crate::text::slice_tail(kv.as_slice(), 1);
            data = lookup_image_exec(map, rest.as_slice());
        }
    }
    match data {
        Some(d) => {
            let mut out = String::from_str(group_or_empty_str(text, ms, i, 1));
            out.append(group_or_empty_str(text, ms, i, 2));
            out.append(d.as_str());
            out.append(group_or_empty_str(text, ms, i, 4));
            out
        },
        None => all.to_owned(),
    }
}

fn rewrite_image_sources(html: &str, images: &Vec<(String, String)>) -> (r: String)
    ensures
        r@ == rewritten_sources(html@, pairs_view(images@)),
{
    let ms = match regex_captures(src_attr_pattern_str(), html) {
        Some(ms) => ms,
        None => return html.to_owned(),
    };
    let ghost m = spans_view(ms@);
    let ghost want = Seq::new(m.len(), |k: int| src_replacement(html@, m[k], pairs_view(images@)));
    let mut reps: Vec<String> = Vec::new();
    let mut i: usize = 0;
    while i < ms.len()
        invariant
            i <= ms@.len(),
            m == spans_view(ms@),
            spans_ok(html@, m),
            want == Seq::new(m.len(), |k: int| src_replacement(html@, m[k], pairs_view(images@))),
            reps@.len() == i,
            forall|k: int| 0 <= k < i ==> (#[trigger] reps@[k])@ == want[k],
        decreases ms@.len() - i,
    {
        assert(m[i as int] == ms@[i as int]@);
        reps.push(src_replacement_exec(html, &ms, i, images));
        i = i + 1;
    }
    assert(reps@.map_values(|s: String| s@) =~= want);
    replace_matches(html, &ms, &reps)
}

/// External stylesheet links removed.
pub open spec fn stripped_stylesheets(text: Seq<char>) -> Seq<char> {
    match regex_spans(stylesheet_pattern(), text) {
        None => text,
        Some(ms) => replaced_all(text, ms, Seq::new(ms.len(), |i: int| Seq::<char>::empty())),
    }
}

fn strip_external_stylesheets(html: &str) -> (r: String)
    ensures
        r@ == stripped_stylesheets(html@),
{
    let ms = match regex_captures(stylesheet_pattern_str(), html) {
        Some(ms) => ms,
        None => return html.to_owned(),
    };
    let mut reps: Vec<String> = Vec::new();
    let mut i: usize = 0;
    while i < ms.len()
        invariant
            i <= ms@.len(),
            reps@.len() == i,
            forall|k: int| 0 <= k < i ==> (#[trigger] reps@[k])@ == Seq::<char>::empty(),
        decreases ms@.len() - i,
    {
        reps.push(String::new());
        i = i + 1;
    }
    assert(reps@.map_values(|s: String| s@) =~= Seq::new(
        spans_view(ms@).len(),
        |k: int| Seq::<char>::empty(),
    ));
    replace_matches(html, &ms, &reps)
}

/// The id prefix of the headings of chapter `i`.
pub open spec fn chapter_prefix(i: nat) -> Seq<char> {
    "c"@ + decimal(i) + "-"@
}

/// A chapter's body: `<body>` content with images inlined, stylesheet links
/// removed and every heading given an id.
pub open spec fn chapter_body(content: Seq<char>, index: nat, map: Seq<(Seq<char>, Seq<char>)>) -> Seq<char> {
    heading_ids_spec(
        stripped_stylesheets(rewritten_sources(body_inner(content), map)),
        chapter_prefix(index),
    ).0
}

/// A chapter as a `<section>` carrying its index and href.
pub open spec fn chapter_section(ch: EpubChapter, index: nat, map: Seq<(Seq<char>, Seq<char>)>) -> Seq<char> {
    "<section class=\"epub-chapter\" id=\"chapter-"@ + decimal(index) + "\" data-href=\""@ + ch.href@
        + "\">"@ + chapter_body(ch.content@, index, map) + "</section>"@
}

pub open spec fn chapters_html(chs: Seq<EpubChapter>, map: Seq<(Seq<char>, Seq<char>)>) -> Seq<char>
    decreases chs.len(),
{
    if chs.len() == 0 {
        Seq::empty()
    } else {
        chapters_html(chs.drop_last(), map) + chapter_section(chs.last(), (chs.len() - 1) as nat, map)
    }
}

fn chapter_body_exec(content: &str, index: usize, images: &Vec<(String, String)>) -> (r: String)
    ensures
        r@ == chapter_body(content@, index as nat, pairs_view(images@)),
{
    let body = extract_body_inner(content);
    let body = rewrite_image_sources(body.as_str(), images);
    let body = strip_external_stylesheets(body.as_str());
    let mut prefix = String::from_str("c");
    push_decimal(&mut prefix, index);
    prefix.append("-");
    let (body, _) = ensure_heading_ids(body.as_str(), prefix.as_str());
    body
}


// ---------------------------------------------------------------------------
// Tables of contents
// ---------------------------------------------------------------------------

/// `level.min(6)`.
pub open spec fn min6(level: u8) -> u8 {
    if level > 6 {
        6
    } else {
        level
    }
}

/// `level.saturating_add(1)`.
pub open spec fn sat_inc(level: u8) -> u8 {
    if level == 255 {
        255
    } else {
        (level + 1) as u8
    }
}

/// Navigation entries flattened in document order; entries without a label
/// pass their children up a level; `base` entries precede them.
pub open spec fn flat_children(cs: Seq<EpubTocNode>, level: u8, hrefs: Seq<Seq<char>>, base: nat) -> Seq<
    TocView,
>
    decreases cs,
{
    if cs.len() == 0 {
        Seq::empty()
    } else {
        let prev = flat_children(cs.drop_last(), level, hrefs, base);
        prev + flat_child(cs.last(), level, hrefs, base + prev.len())
    }
}

pub open spec fn flat_child(c: EpubTocNode, level: u8, hrefs: Seq<Seq<char>>, base: nat) -> Seq<TocView>
    decreases c,
{
    let label = trim(c.label@);
    if label.len() == 0 {
        flat_children(c.children@, level, hrefs, base)
    } else {
        let id = match c.href {
            Some(h) => chapter_id_for(h@, hrefs),
            None => chapter_id(base),
        };
        seq![TocView { id, title: label, level: min6(level) }] + flat_children(
            c.children@,
            sat_inc(level),
            hrefs,
            base + 1,
        )
    }
}

fn flatten_toc(children: &Vec<EpubTocNode>, level: u8, chapter_hrefs: &Vec<String>, out: &mut Vec<TocEntry>)
    ensures
        toc_view(final(out)@) == toc_view(old(out)@) + flat_children(
            children@,
            level,
            strings_view(chapter_hrefs@),
            old(out)@.len(),
        ),
    decreases children@, 1nat,
{
    let ghost hv = strings_view(chapter_hrefs@);
    let ghost o = toc_view(out@);
    let ghost base = out@.len();
    let mut i: usize = 0;
    while i < children.len()
        invariant
            i <= children@.len(),
            hv == strings_view(chapter_hrefs@),
            o.len() == base,
            toc_view(out@) == o + flat_children(children@.take(i as int), level, hv, base),
        decreases children@.len() - i,
    {
        assert(children@.take(i + 1).drop_last() =~= children@.take(i as int));
        assert(children@.take(i + 1).last() == children@[i as int]);
        flatten_child(&children[i], level, chapter_hrefs, out);
        i = i + 1;
        assert(toc_view(out@) =~= o + flat_children(children@.take(i as int), level, hv, base));
    }
    assert(children@.take(children@.len() as int) =~= children@);
}

fn flatten_child(child: &EpubTocNode, level: u8, chapter_hrefs: &Vec<String>, out: &mut Vec<TocEntry>)
    ensures
        toc_view(final(out)@) == toc_view(old(out)@) + flat_child(
            *child,
            level,
            strings_view(chapter_hrefs@),
            old(out)@.len(),
        ),
    decreases *child, 0nat,
{
    let label = trim_chars(chars_of(child.label.as_str()).as_slice());
    if label.len() == 0 {
        flatten_toc(&child.children, level, chapter_hrefs, out);
        return ;
    }
    let id = match &child.href {
        Some(h) => href_to_chapter_id(h.as_str(), chapter_hrefs),
        None => chapter_id_exec(out.len()),
    };
    let lv = if level > 6 {
        6
    } else {
        level
    };
    out.push(TocEntry { id, title: string_of(label.as_slice()), level: lv });
    let next = if level == 255 {
        255
    } else {
        level + 1
    };
    let ghost mid = toc_view(out@);
    flatten_toc(&child.children, next, chapter_hrefs, out);
    assert(toc_view(out@) =~= toc_view(old(out)@) + flat_child(
        *child,
        level,
        strings_view(chapter_hrefs@),
        old(out)@.len(),
    ));
}

/// Title of the first heading of a chapter body.
pub open spec fn first_heading(body: Seq<char>) -> Option<Seq<char>> {
    if headings_spec(body).len() > 0 {
        Some(headings_spec(body)[0].text)
    } else {
        None
    }
}

/// One entry per chapter, titled by its first heading or its number.
pub open spec fn spine_toc(bodies: Seq<Seq<char>>) -> Seq<TocView> {
    Seq::new(
        bodies.len(),
        |i: int|
            TocView {
                id: chapter_id(i as nat),
                title: match first_heading(bodies[i]) {
                    Some(t) => t,
                    None => decimal((i + 1) as nat),
                },
                level: 1,
            },
    )
}

/// One TOC entry per spine XHTML (first heading text if available).
pub fn toc_from_spine_files(bodies: &Vec<String>) -> (r: Vec<TocEntry>)
    ensures
        toc_view(r@) == spine_toc(strings_view(bodies@)),
        r@.len() == bodies@.len(),
        forall|i: int|
            0 <= i < bodies@.len() ==> #[trigger] toc_view(r@)[i] == spine_entry(strings_view(bodies@), i),
{
    proof {
        lemma_spine_toc(strings_view(bodies@));
    }
    let ghost bv = strings_view(bodies@);
    let mut toc: Vec<TocEntry> = Vec::new();
    let mut i: usize = 0;
    while i < bodies.len()
        invariant
            i <= bodies@.len(),
            bv == strings_view(bodies@),
            toc_view(toc@) == spine_toc(bv).take(i as int),
        decreases bodies@.len() - i,
    {
        assert(bv[i as int] == bodies@[i as int]@);
        let title = match first_heading_text(bodies[i].as_str()) {
            Some(t) => t,
            None => crate::text::usize_to_string(i + 1),
        };
        let ghost old_toc = toc_view(toc@);
        let e = TocEntry { id: chapter_id_exec(i), title, level: 1 };
        assert(e@ == spine_toc(bv)[i as int]);
        toc.push(e);
        assert(toc_view(toc@) =~= old_toc.push(e@));
        i = i + 1;
        assert(toc_view(toc@) =~= spine_toc(bv).take(i as int));
    }
    assert(spine_toc(bv).take(bodies@.len() as int) =~= spine_toc(bv));
    toc
}

/// Headings that only say "contents" (ASCII case-insensitively), or its Russian forms.
pub open spec fn is_contents_label(t: Seq<char>) -> bool {
    let l = ascii_lower(t);
    l == "contents"@ || l == "содержание"@ || l == "оглавление"@
}

/// `auto + 1` in 32 bits, wrapping.
pub open spec fn next_auto(a: u32) -> u32 {
    if a == 0xffff_ffff {
        0
    } else {
        (a + 1) as u32
    }
}

/// Entries for the headings of chapter `idx`, numbering them on from `auto`.
pub open spec fn heading_entries(hs: Seq<HeadingView>, idx: nat, auto: u32) -> (Seq<TocView>, u32)
    decreases hs.len(),
{
    if hs.len() == 0 {
        (Seq::empty(), auto)
    } else {
        let prev = heading_entries(hs.drop_last(), idx, auto);
        let h = hs.last();
        let a = next_auto(prev.1);
        let id = match h.id {
            Some(i) => if i.len() > 0 {
                i
            } else {
                "chapter-"@ + decimal(idx) + "-h"@ + decimal(a as nat)
            },
            None => "chapter-"@ + decimal(idx) + "-h"@ + decimal(a as nat),
        };
        let title = trim(h.text);
        if title.len() == 0 {
            (prev.0, a)
        } else {
            (prev.0.push(TocView { id, title, level: min6(h.level) }), a)
        }
    }
}

/// A lone "contents" heading marks a navigation page, skipped when there are other chapters.
pub open spec fn nav_page(hs: Seq<HeadingView>, chapters: nat) -> bool {
    hs.len() == 1 && chapters > 1 && is_contents_label(hs[0].text)
}

/// Entries for every h1–h3 of the first `n` chapters, and the running count.
pub open spec fn internal_toc(bodies: Seq<Seq<char>>, n: int) -> (Seq<TocView>, u32)
    decreases n,
{
    if n <= 0 {
        (Seq::empty(), 0)
    } else {
        let prev = internal_toc(bodies, n - 1);
        let hs = headings_spec(bodies[n - 1]);
        if nav_page(hs, bodies.len()) {
            prev
        } else {
            let t = heading_entries(hs, (n - 1) as nat, prev.1);
            (prev.0 + t.0, t.1)
        }
    }
}

fn is_contents(text: &String) -> (r: bool)
    ensures
        r == is_contents_label(text@),
{
    let l = lower_chars(chars_of(text.as_str()).as_slice());
    chars_eq(l.as_slice(), chars_of("contents").as_slice()) || chars_eq(
        l.as_slice(),
        chars_of("содержание").as_slice(),
    ) || chars_eq(l.as_slice(), chars_of("оглавление").as_slice())
}

/// TOC from all h1–h3 inside chapter HTML (ids preferred for in-page navigation).
pub fn toc_from_internal_headings(bodies: &Vec<String>) -> (r: Vec<TocEntry>)
    ensures
        toc_view(r@) == internal_toc(strings_view(bodies@), bodies@.len() as int).0,
{
    let ghost bv = strings_view(bodies@);
    let mut toc: Vec<TocEntry> = Vec::new();
    let mut auto: u32 = 0;
    let mut idx: usize = 0;
    while idx < bodies.len()
        invariant
            idx <= bodies@.len(),
            bv == strings_view(bodies@),
            (toc_view(toc@), auto) == internal_toc(bv, idx as int),
        decreases bodies@.len() - idx,
    {
        assert(bv[idx as int] == bodies@[idx as int]@);
        let headings = extract_headings(bodies[idx].as_str());
        let ghost hs = headings_view(headings@);
        let skip = headings.len() == 1 && bodies.len() > 1 && is_contents(&headings[0].text);
        assert(skip == nav_page(hs, bv.len())) by {
            if headings@.len() == 1 {
                assert(hs[0] == headings@[0]@);
            }
        }
        if !skip {
            let ghost t0 = toc_view(toc@);
            let ghost a0 = auto;
            let mut k: usize = 0;
            while k < headings.len()
                invariant
                    k <= headings@.len(),
                    hs == headings_view(headings@),
                    (toc_view(toc@), auto) == (
                        t0 + heading_entries(hs.take(k as int), idx as nat, a0).0,
                        heading_entries(hs.take(k as int), idx as nat, a0).1,
                    ),
                decreases headings@.len() - k,
            {
                assert(hs.take(k + 1).drop_last() =~= hs.take(k as int));
                assert(hs.take(k + 1).last() == headings@[k as int]@);
                let h = &headings[k];
                auto = if auto == 0xffff_ffff {
                    0
                } else {
                    auto + 1
                };
                let id = match &h.id {
                    Some(i) => if i.as_str().is_empty() == false {
                        i.clone()
                    } else {
                        let mut g = String::from_str("chapter-");
                        push_decimal(&mut g, idx);
                        g.append("-h");
                        push_decimal(&mut g, auto as usize);
                        g
                    },
                    None => {
                        let mut g = String::from_str("chapter-");
                        push_decimal(&mut g, idx);
                        g.append("-h");
                        push_decimal(&mut g, auto as usize);
                        g
                    },
                };
                let title = trim_chars(chars_of(h.text.as_str()).as_slice());
                if title.len() > 0 {
                    let lv = if h.level > 6 {
                        6
                    } else {
                        h.level
                    };
                    let ghost old_toc = toc_view(toc@);
                    let e = TocEntry { id, title: string_of(title.as_slice()), level: lv };
                    toc.push(e);
                    assert(toc_view(toc@) =~= old_toc.push(e@));
                }
                k = k + 1;
                assert(toc_view(toc@) =~= t0 + heading_entries(hs.take(k as int), idx as nat, a0).0);
            }
            assert(hs.take(headings@.len() as int) =~= hs);
        }
        idx = idx + 1;
        assert(toc_view(toc@) =~= internal_toc(bv, idx as int).0);
    }
    toc
}

/// The preferred navigation table, when present.
pub open spec fn nav_preferred(src: EpubSource, hrefs: Seq<Seq<char>>) -> Seq<Seq<TocView>> {
    match src.toc_contents {
        Some(r) => seq![flat_children(r.children@, 1, hrefs, 0)],
        None => Seq::empty(),
    }
}

/// A versioned navigation table, when present and not empty.
pub open spec fn nav_nonempty(t: Option<EpubTocNode>, hrefs: Seq<Seq<char>>) -> Seq<Seq<TocView>> {
    match t {
        Some(r) => if flat_children(r.children@, 1, hrefs, 0).len() > 0 {
            seq![flat_children(r.children@, 1, hrefs, 0)]
        } else {
            Seq::empty()
        },
        None => Seq::empty(),
    }
}

/// The navigation tables present: the preferred one always, the EPUB 2 and
/// EPUB 3 ones when not empty.
pub open spec fn nav_candidates(src: EpubSource, hrefs: Seq<Seq<char>>) -> Seq<Seq<TocView>> {
    nav_preferred(src, hrefs) + nav_nonempty(src.toc_epub2, hrefs) + nav_nonempty(src.toc_epub3, hrefs)
}

/// The longest candidate, the last of equally long ones (`Iterator::max_by_key`).
pub open spec fn longest(cands: Seq<Seq<TocView>>) -> Seq<TocView>
    decreases cands.len(),
{
    if cands.len() == 0 {
        Seq::empty()
    } else if cands.len() == 1 {
        cands[0]
    } else {
        let b = longest(cands.drop_last());
        if cands.last().len() >= b.len() {
            cands.last()
        } else {
            b
        }
    }
}

/// Chapters numbered from 1.
pub open spec fn numbered_toc(n: nat) -> Seq<TocView> {
    Seq::new(n, |i: int| TocView { id: chapter_id(i as nat), title: decimal((i + 1) as nat), level: 1 })
}

/// The richest table: navigation, then in-document headings, then one entry
/// per chapter, each taken only when strictly longer.
pub open spec fn toc_spec(src: EpubSource, hrefs: Seq<Seq<char>>, bodies: Seq<Seq<char>>) -> Seq<TocView> {
    let nav = longest(nav_candidates(src, hrefs));
    let h = internal_toc(bodies, bodies.len() as int).0;
    let sp = spine_toc(bodies);
    let b1 = if h.len() > nav.len() {
        h
    } else {
        nav
    };
    let b2 = if sp.len() > b1.len() {
        sp
    } else {
        b1
    };
    if b2.len() == 0 {
        numbered_toc(bodies.len())
    } else {
        b2
    }
}

proof fn lemma_longest_push(a: Seq<Seq<TocView>>, x: Seq<TocView>)
    ensures
        longest(a.push(x)) == (if a.len() == 0 {
            x
        } else if x.len() >= longest(a).len() {
            x
        } else {
            longest(a)
        }),
{
    assert(a.push(x).drop_last() =~= a);
}

/// The longest candidate is at least as long as each candidate.
proof fn lemma_longest_is_longest(cands: Seq<Seq<TocView>>)
    ensures
        forall|i: int| 0 <= i < cands.len() ==> (#[trigger] cands[i]).len() <= longest(cands).len(),
    decreases cands.len(),
{
    if cands.len() > 1 {
        let init = cands.drop_last();
        lemma_longest_is_longest(init);
        assert forall|i: int| 0 <= i < cands.len() implies (#[trigger] cands[i]).len() <= longest(
            cands,
        ).len() by {
            if i < cands.len() - 1 {
                assert(cands[i] == init[i]);
            }
        }
    }
}

/// The table of contents chosen is the richest: at least as long as every
/// navigation table present, as the in-document headings, and as one entry
/// per chapter.
pub proof fn lemma_toc_is_richest(src: EpubSource, hrefs: Seq<Seq<char>>, bodies: Seq<Seq<char>>)
    ensures
        forall|i: int|
            0 <= i < nav_candidates(src, hrefs).len() ==> (#[trigger] nav_candidates(
                src,
                hrefs,
            )[i]).len() <= toc_spec(src, hrefs, bodies).len(),
        internal_toc(bodies, bodies.len() as int).0.len() <= toc_spec(src, hrefs, bodies).len(),
        bodies.len() <= toc_spec(src, hrefs, bodies).len(),
{
    lemma_longest_is_longest(nav_candidates(src, hrefs));
}

/// Of three tables: the first unless another is longer; of the other two, the
/// second unless the third is longer.
pub open spec fn richest_of(n: Seq<TocView>, h: Seq<TocView>, s: Seq<TocView>) -> Seq<TocView> {
    if n.len() >= h.len() && n.len() >= s.len() {
        n
    } else if h.len() >= s.len() {
        h
    } else {
        s
    }
}

/// The longest navigation table present, the last of equally long ones.
pub open spec fn nav_table(src: EpubSource, hrefs: Seq<Seq<char>>) -> Seq<TocView> {
    longest(nav_candidates(src, hrefs))
}

/// The entries for the in-document headings of all chapters.
pub open spec fn heading_table(bodies: Seq<Seq<char>>) -> Seq<TocView> {
    internal_toc(bodies, bodies.len() as int).0
}

/// The table of contents chosen: the longest navigation table, unless the
/// in-document headings or one entry per chapter is longer; of those two, the
/// headings unless the chapter list is longer.  Its length is the greatest of
/// the three.
pub proof fn lemma_toc_choice(src: EpubSource, hrefs: Seq<Seq<char>>, bodies: Seq<Seq<char>>)
    ensures
        toc_spec(src, hrefs, bodies) == richest_of(
            nav_table(src, hrefs),
            heading_table(bodies),
            spine_toc(bodies),
        ),
        toc_spec(src, hrefs, bodies).len() >= nav_table(src, hrefs).len(),
        toc_spec(src, hrefs, bodies).len() >= heading_table(bodies).len(),
        toc_spec(src, hrefs, bodies).len() >= bodies.len(),
        toc_spec(src, hrefs, bodies).len() == nav_table(src, hrefs).len() || toc_spec(
            src,
            hrefs,
            bodies,
        ).len() == heading_table(bodies).len() || toc_spec(src, hrefs, bodies).len()
            == bodies.len(),
{
    let s = spine_toc(bodies);
    if bodies.len() == 0 {
        assert(numbered_toc(0) =~= Seq::<TocView>::empty());
        assert(s =~= Seq::<TocView>::empty());
    }
}

/// The entry of chapter `i`: id `chapter-i`, titled by its first heading or
/// else by its number from 1, at level 1.
pub open spec fn spine_entry(bodies: Seq<Seq<char>>, i: int) -> TocView {
    TocView {
        id: chapter_id(i as nat),
        title: match first_heading(bodies[i]) {
            Some(t) => t,
            None => decimal((i + 1) as nat),
        },
        level: 1,
    }
}

/// One entry per chapter, in order.
pub proof fn lemma_spine_toc(bodies: Seq<Seq<char>>)
    ensures
        spine_toc(bodies).len() == bodies.len(),
        forall|i: int| 0 <= i < bodies.len() ==> #[trigger] spine_toc(bodies)[i] == spine_entry(bodies, i),
{
}

fn nav_toc(root: &EpubTocNode, chapter_hrefs: &Vec<String>) -> (r: Vec<TocEntry>)
    ensures
        toc_view(r@) == flat_children(root.children@, 1, strings_view(chapter_hrefs@), 0),
{
    let mut t: Vec<TocEntry> = Vec::new();
    flatten_toc(&root.children, 1, chapter_hrefs, &mut t);
    assert(toc_view(t@) =~= flat_children(root.children@, 1, strings_view(chapter_hrefs@), 0));
    t
}

pub fn build_toc(src: &EpubSource, chapter_hrefs: &Vec<String>, chapter_bodies: &Vec<String>) -> (r: Vec<
    TocEntry,
>)
    ensures
        toc_view(r@) == toc_spec(*src, strings_view(chapter_hrefs@), strings_view(chapter_bodies@)),
        toc_view(r@) == richest_of(
            nav_table(*src, strings_view(chapter_hrefs@)),
            heading_table(strings_view(chapter_bodies@)),
            spine_toc(strings_view(chapter_bodies@)),
        ),
        r@.len() >= chapter_bodies@.len(),
{
    proof {
        lemma_toc_choice(*src, strings_view(chapter_hrefs@), strings_view(chapter_bodies@));
    }
    let ghost hv = strings_view(chapter_hrefs@);
    let ghost bv = strings_view(chapter_bodies@);
    let ghost c1 = nav_preferred(*src, hv);
    let ghost c2 = nav_nonempty(src.toc_epub2, hv);
    let ghost c3 = nav_nonempty(src.toc_epub3, hv);
    let mut best: Vec<TocEntry> = Vec::new();
    let mut have = false;
    if let Some(root) = &src.toc_contents {
        best = nav_toc(root, chapter_hrefs);
        have = true;
        assert(c1 =~= seq![toc_view(best@)]);
    } else {
        assert(c1 =~= Seq::<Seq<TocView>>::empty());
    }
    assert(have == (c1.len() > 0));
    assert(have ==> toc_view(best@) == longest(c1));
    if let Some(root) = &src.toc_epub2 {
        let t = nav_toc(root, chapter_hrefs);
        if t.len() > 0 {
            assert(c2 =~= seq![toc_view(t@)]);
            proof {
                lemma_longest_push(c1, toc_view(t@));
            }
            if !have || t.len() >= best.len() {
                best = t;
            }
            have = true;
        } else {
            assert(c2 =~= Seq::<Seq<TocView>>::empty());
        }
    } else {
        assert(c2 =~= Seq::<Seq<TocView>>::empty());
    }
    assert(c1 + c2 =~= (if c2.len() > 0 { c1.push(c2[0]) } else { c1 }));
    assert(have == ((c1 + c2).len() > 0));
    assert(have ==> toc_view(best@) == longest(c1 + c2));
    if let Some(root) = &src.toc_epub3 {
        let t = nav_toc(root, chapter_hrefs);
        if t.len() > 0 {
            assert(c3 =~= seq![toc_view(t@)]);
            proof {
                lemma_longest_push(c1 + c2, toc_view(t@));
            }
            if !have || t.len() >= best.len() {
                best = t;
            }
            have = true;
        } else {
            assert(c3 =~= Seq::<Seq<TocView>>::empty());
        }
    } else {
        assert(c3 =~= Seq::<Seq<TocView>>::empty());
    }
    let ghost cands = nav_candidates(*src, hv);
    assert(cands =~= (if c3.len() > 0 { (c1 + c2).push(c3[0]) } else { c1 + c2 }));
    assert(toc_view(best@) == longest(cands)) by {
        if !have {
            assert(cands.len() == 0);
            assert(toc_view(best@) =~= Seq::<TocView>::empty());
        }
    }
    let from_spine = toc_from_spine_files(chapter_bodies);
    let from_headings = toc_from_internal_headings(chapter_bodies);
    if from_headings.len() > best.len() {
        best = from_headings;
    }
    if from_spine.len() > best.len() {
        best = from_spine;
    }
    if best.len() == 0 {
        let mut i: usize = 0;
        while i < chapter_bodies.len()
            invariant
                i <= chapter_bodies@.len(),
                toc_view(best@) == numbered_toc(chapter_bodies@.len() as nat).take(i as int),
            decreases chapter_bodies@.len() - i,
        {
            let ghost old_best = toc_view(best@);
            let e = TocEntry { id: chapter_id_exec(i), title: crate::text::usize_to_string(i + 1), level: 1 };
            assert(e@ == numbered_toc(chapter_bodies@.len() as nat)[i as int]);
            best.push(e);
            assert(toc_view(best@) =~= old_best.push(e@));
            i = i + 1;
            assert(toc_view(best@) =~= numbered_toc(chapter_bodies@.len() as nat).take(i as int));
        }
        assert(numbered_toc(chapter_bodies@.len() as nat).take(chapter_bodies@.len() as int)
            =~= numbered_toc(chapter_bodies@.len() as nat));
    }
    best
}


// ---------------------------------------------------------------------------
// The book
// ---------------------------------------------------------------------------

/// A metadata value when it is not blank.
pub open spec fn non_blank_value(v: Option<String>) -> Option<Seq<char>> {
    match v {
        Some(s) => if trim(s@).len() > 0 {
            Some(s@)
        } else {
            None
        },
        None => None,
    }
}

fn non_blank_value_exec(v: &Option<String>) -> (r: Option<String>)
    ensures
        r.deep_view() == non_blank_value(*v),
{
    match v {
        Some(s) => {
            if trim_chars(chars_of(s.as_str()).as_slice()).len() > 0 {
                Some(s.clone())
            } else {
                None
            }
        },
        None => None,
    }
}

/// Normalized hrefs of the chapters.
pub open spec fn chapter_hrefs_of(chs: Seq<EpubChapter>) -> Seq<Seq<char>> {
    chs.map_values(|c: EpubChapter| normalized(c.href@))
}

/// Bodies of the chapters.
pub open spec fn chapter_bodies_of(chs: Seq<EpubChapter>, map: Seq<(Seq<char>, Seq<char>)>) -> Seq<Seq<char>> {
    Seq::new(chs.len(), |i: int| chapter_body(chs[i].content@, i as nat, map))
}

proof fn lemma_chapter_lists_step(chs: Seq<EpubChapter>, i: int, map: Seq<(Seq<char>, Seq<char>)>)
    requires
        0 <= i < chs.len(),
    ensures
        chapter_hrefs_of(chs.take(i + 1)) == chapter_hrefs_of(chs.take(i)).push(normalized(chs[i].href@)),
        chapter_bodies_of(chs.take(i + 1), map) == chapter_bodies_of(chs.take(i), map).push(
            chapter_body(chs[i].content@, i as nat, map),
        ),
{
    assert(chapter_hrefs_of(chs.take(i + 1)) =~= chapter_hrefs_of(chs.take(i)).push(
        normalized(chs[i].href@),
    ));
    assert(chapter_bodies_of(chs.take(i + 1), map) =~= chapter_bodies_of(chs.take(i), map).push(
        chapter_body(chs[i].content@, i as nat, map),
    ));
}

fn chapter_section_exec(item: &EpubChapter, index: usize, image_map: &Vec<(String, String)>) -> (r: (
    String,
    String,
))
    ensures
        r.0@ == chapter_body(item.content@, index as nat, pairs_view(image_map@)),
        r.1@ == chapter_section(*item, index as nat, pairs_view(image_map@)),
{
    let body = chapter_body_exec(item.content.as_str(), index, image_map);
    let mut html = String::from_str("<section class=\"epub-chapter\" id=\"chapter-");
    push_decimal(&mut html, index);
    html.append("\" data-href=\"");
    html.append(item.href.as_str());
    html.append("\">");
    html.append(body.as_str());
    html.append("</section>");
    (body, html)
}

pub fn parse(source: &EpubSource) -> (r: ParsedBook)
    requires
        images_fit(source.images@),
    ensures
        ({
            let map = image_entries(source.images@, source.images@.len() as int);
            &&& r.html@ == "<article class=\"epub-book\">"@ + chapters_html(source.chapters@, map)
                + "</article>"@
            &&& toc_view(r.toc@) == toc_spec(
                *source,
                chapter_hrefs_of(source.chapters@),
                chapter_bodies_of(source.chapters@, map),
            )
            &&& r.toc@.len() >= source.chapters@.len()
            &&& r.title.deep_view() == non_blank_value(source.title)
            &&& r.author.deep_view() == non_blank_value(source.creator)
            &&& cover_view(r.cover) == cover_of(source.cover)
        }),
{
    let title = non_blank_value_exec(&source.title);
    let author = non_blank_value_exec(&source.creator);
    let cover = extract_cover(source);
    let image_map = build_image_map(&source.images);
    let ghost map = pairs_view(image_map@);
    let mut chapter_hrefs: Vec<String> = Vec::new();
    let mut chapter_bodies: Vec<String> = Vec::new();
    let mut html = String::from_str("<article class=\"epub-book\">");
    let ghost h0 = html@;
    let chs = &source.chapters;
    let mut index: usize = 0;
    while index < chs.len()
        invariant
            index <= chs@.len(),
            chs@ == source.chapters@,
            map == pairs_view(image_map@),
            html@ == h0 + chapters_html(chs@.take(index as int), map),
            strings_view(chapter_hrefs@) == chapter_hrefs_of(chs@.take(index as int)),
            strings_view(chapter_bodies@) == chapter_bodies_of(chs@.take(index as int), map),
        decreases chs@.len() - index,
    {
        assert(chs@.take(index + 1).drop_last() =~= chs@.take(index as int));
        assert(chs@.take(index + 1).last() == chs@[index as int]);
        let item = &chs[index];
        let (body, section) = chapter_section_exec(item, index, &image_map);
        let ghost hrefs0 = strings_view(chapter_hrefs@);
        let ghost bodies0 = strings_view(chapter_bodies@);
        let nh = normalize_href(item.href.as_str());
        chapter_hrefs.push(nh);
        html.append(section.as_str());
        chapter_bodies.push(body);
        assert(strings_view(chapter_hrefs@) =~= hrefs0.push(nh@));
        assert(strings_view(chapter_bodies@) =~= bodies0.push(body@));
        proof {
            lemma_chapter_lists_step(chs@, index as int, map);
        }
        index = index + 1;
        assert(html@ =~= h0 + chapters_html(chs@.take(index as int), map));
    }
    assert(chs@.take(chs@.len() as int) =~= chs@);
    html.append("</article>");
    let toc = build_toc(source, &chapter_hrefs, &chapter_bodies);
    ParsedBook { html, toc, title, author, cover }
}

/// Catalog metadata; a blank title falls back to the file name.
pub fn metadata(source: &EpubSource, path: &str) -> (r: BookMeta)
    ensures
        r.title@ == match non_blank_value(source.title) {
            Some(t) => t,
            None => path_title(path@),
        },
        r.author.deep_view() == non_blank_value(source.creator),
        cover_view(r.cover) == cover_of(source.cover),
{
    let title = match non_blank_value_exec(&source.title) {
        Some(t) => t,
        None => title_from_path(path),
    };
    BookMeta {
        title,
        author: non_blank_value_exec(&source.creator),
        cover: extract_cover(source),
    }
}

} // verus!
