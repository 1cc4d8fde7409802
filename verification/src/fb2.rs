//! FictionBook 2 rendering: the document tree, held as plain values, is turned
//! into reader HTML and a table of contents.
use crate::encoding::{base64_decoded, decode_base64};
use crate::formats::{cover_view, path_title, title_from_path, BookMeta, CoverImage, ParsedBook};
use crate::html_util::{escape, push_escaped, untagged};
use crate::models::{TocEntry, TocView, toc_view};
use crate::text::{
    chars_of, collapse_whitespace, collapse_ws, decimal, is_whitespace, is_ws, push_char,
    push_decimal, string_of, trim, trim_chars,
};
use vstd::prelude::*;

verus! {

// ---------------------------------------------------------------------------
// The document tree
// ---------------------------------------------------------------------------

/// An image reference (`<image l:href="#id" alt="..."/>`).
#[derive(Debug)]
pub struct Fb2Image {
    pub href: Option<String>,
    pub alt: Option<String>,
}

/// Inline markup inside a paragraph.
#[derive(Debug)]
pub enum StyleElement {
    Text(String),
    Strong(Vec<StyleElement>),
    Emphasis(Vec<StyleElement>),
    Strikethrough(Vec<StyleElement>),
    Subscript(Vec<StyleElement>),
    Superscript(Vec<StyleElement>),
    Code(Vec<StyleElement>),
    Style(Vec<StyleElement>),
    Link { href: Option<String>, elements: Vec<StyleLinkElement> },
    Image(Fb2Image),
}

/// Inline markup inside a link.
#[derive(Debug)]
pub enum StyleLinkElement {
    Text(String),
    Strong(Vec<StyleLinkElement>),
    Emphasis(Vec<StyleLinkElement>),
    Style(Vec<StyleLinkElement>),
    Strikethrough(Vec<StyleLinkElement>),
    Subscript(Vec<StyleLinkElement>),
    Superscript(Vec<StyleLinkElement>),
    Code(Vec<StyleLinkElement>),
    Image(Fb2Image),
}

/// A line of a title.
#[derive(Debug)]
pub enum TitleElement {
    Paragraph(Vec<StyleElement>),
    EmptyLine,
}

#[derive(Debug)]
pub struct Fb2Title {
    pub elements: Vec<TitleElement>,
}

#[derive(Debug)]
pub enum PoemStanza {
    Subtitle(Vec<StyleElement>),
    /// The verses of a stanza.
    Stanza(Vec<Vec<StyleElement>>),
}

#[derive(Debug)]
pub struct Fb2Poem {
    pub title: Option<Fb2Title>,
    pub stanzas: Vec<PoemStanza>,
    pub text_authors: Vec<Vec<StyleElement>>,
}

#[derive(Debug)]
pub enum CiteElement {
    Paragraph(Vec<StyleElement>),
    Poem(Fb2Poem),
    Subtitle(Vec<StyleElement>),
    EmptyLine,
    Table,
}

#[derive(Debug)]
pub struct Fb2Cite {
    pub elements: Vec<CiteElement>,
    pub text_authors: Vec<Vec<StyleElement>>,
}

/// A block inside a section.
#[derive(Debug)]
pub enum SectionPart {
    Paragraph(Vec<StyleElement>),
    Subtitle(Vec<StyleElement>),
    EmptyLine,
    Image(Fb2Image),
    Cite(Fb2Cite),
    Poem(Fb2Poem),
    Table,
}

#[derive(Debug)]
pub struct SectionContent {
    pub title: Option<Fb2Title>,
    pub image: Option<Fb2Image>,
    pub content: Vec<SectionPart>,
    pub sections: Vec<Fb2Section>,
}

#[derive(Debug)]
pub struct Fb2Section {
    pub id: Option<String>,
    pub content: Option<SectionContent>,
}

#[derive(Debug)]
pub struct Fb2Body {
    pub title: Option<Fb2Title>,
    pub sections: Vec<Fb2Section>,
}

#[derive(Debug)]
pub enum Fb2Author {
    Verbose {
        first_name: String,
        middle_name: Option<String>,
        last_name: String,
        nickname: Option<String>,
    },
    Anonymous { nickname: Option<String> },
}

/// An embedded file: its id, MIME type and base64 text.
#[derive(Debug)]
pub struct Fb2Binary {
    pub id: String,
    pub content_type: String,
    pub content: String,
}

/// What the reader uses of a FictionBook document.
#[derive(Debug)]
pub struct Fb2Book {
    pub book_title: String,
    pub authors: Vec<Fb2Author>,
    /// `href` of the first image of the cover page.
    pub cover_href: Option<String>,
    /// The first body.
    pub body: Option<Fb2Body>,
    pub binaries: Vec<Fb2Binary>,
}

// ---------------------------------------------------------------------------
// Embedded binaries
// ---------------------------------------------------------------------------

/// `str::trim_start_matches('#')`.
pub open spec fn strip_hashes(s: Seq<char>) -> Seq<char>
    decreases s.len(),
{
    if s.len() > 0 && s[0] == '#' {
        strip_hashes(s.skip(1))
    } else {
        s
    }
}

/// `s.split_whitespace().collect::<String>()`: the text without white space.
pub open spec fn without_ws(s: Seq<char>) -> Seq<char>
    decreases s.len(),
{
    if s.len() == 0 {
        Seq::empty()
    } else if is_ws(s.last()) {
        without_ws(s.drop_last())
    } else {
        without_ws(s.drop_last()).push(s.last())
    }
}

/// The cleaned binaries of the first `n`, skipping those with no content.
pub open spec fn binaries_upto(bs: Seq<Fb2Binary>, n: int) -> Seq<(Seq<char>, Seq<char>, Seq<char>)>
    decreases n,
{
    if n <= 0 {
        Seq::empty()
    } else {
        let prev = binaries_upto(bs, n - 1);
        let b = bs[n - 1];
        let content = without_ws(b.content@);
        if content.len() > 0 {
            prev.push((strip_hashes(b.id@), b.content_type@, content))
        } else {
            prev
        }
    }
}

/// Binaries as `(id, mime, base64)`, in document order.
pub open spec fn binary_table(bs: Seq<Fb2Binary>) -> Seq<(Seq<char>, Seq<char>, Seq<char>)> {
    binaries_upto(bs, bs.len() as int)
}

pub open spec fn bins_view(v: Seq<Fb2Binary>) -> Seq<(Seq<char>, Seq<char>, Seq<char>)> {
    v.map_values(|b: Fb2Binary| (b.id@, b.content_type@, b.content@))
}

/// The binary stored under `key`: the last one with that id.
pub open spec fn lookup_binary(bins: Seq<(Seq<char>, Seq<char>, Seq<char>)>, key: Seq<char>) -> Option<
    (Seq<char>, Seq<char>),
>
    decreases bins.len(),
{
    if bins.len() == 0 {
        None
    } else if bins.last().0 == key {
        Some((bins.last().1, bins.last().2))
    } else {
        lookup_binary(bins.drop_last(), key)
    }
}

fn strip_hashes_exec(s: &str) -> (r: Vec<char>)
    ensures
        r@ == strip_hashes(s@),
{
    let v = chars_of(s);
    let mut i: usize = 0;
    assert(v@.skip(0) =~= v@);
    while i < v.len() && v[i] == '#'
        invariant
            i <= v@.len(),
            strip_hashes(s@) == strip_hashes(v@.skip(i as int)),
            v@ == s@,
        decreases v@.len() - i,
    {
        assert(v@.skip(i as int).skip(1) =~= v@.skip(i + 1));
        i = i + 1;
    }
    let mut r: Vec<char> = Vec::new();
    let mut k = i;
    while k < v.len()
        invariant
            i <= k <= v@.len(),
            r@ == v@.subrange(i as int, k as int),
        decreases v@.len() - k,
    {
        r.push(v[k]);
        k = k + 1;
        assert(r@ =~= v@.subrange(i as int, k as int));
    }
    assert(v@.skip(i as int) =~= v@.subrange(i as int, v@.len() as int));
    r
}

fn without_ws_exec(s: &str) -> (r: Vec<char>)
    ensures
        r@ == without_ws(s@),
{
    let v = chars_of(s);
    let mut r: Vec<char> = Vec::new();
    let mut i: usize = 0;
    while i < v.len()
        invariant
            i <= v@.len(),
            v@ == s@,
            r@ == without_ws(v@.take(i as int)),
        decreases v@.len() - i,
    {
        assert(v@.take(i + 1).drop_last() =~= v@.take(i as int));
        if !is_whitespace(v[i]) {
            r.push(v[i]);
        }
        i = i + 1;
    }
    assert(v@.take(v@.len() as int) =~= v@);
    r
}

/// Embedded binaries keyed by id (without a leading `#`), whitespace removed
/// from their base64 text; those left empty are dropped.
pub fn binary_map(book: &Fb2Book) -> (r: Vec<Fb2Binary>)
    ensures
        bins_view(r@) == binary_table(book.binaries@),
{
    let mut r: Vec<Fb2Binary> = Vec::new();
    let mut i: usize = 0;
    while i < book.binaries.len()
        invariant
            i <= book.binaries@.len(),
            bins_view(r@) == binaries_upto(book.binaries@, i as int),
        decreases book.binaries@.len() - i,
    {
        let b = &book.binaries[i];
        let content = without_ws_exec(b.content.as_str());
        if content.len() > 0 {
            let id = strip_hashes_exec(b.id.as_str());
            let e = Fb2Binary {
                id: string_of(id.as_slice()),
                content_type: b.content_type.clone(),
                content: string_of(content.as_slice()),
            };
            r.push(e);
        }
        i = i + 1;
        assert(bins_view(r@) =~= binaries_upto(book.binaries@, i as int));
    }
    r
}

fn lookup_binary_exec(bins: &Vec<Fb2Binary>, key: &[char]) -> (r: Option<usize>)
    ensures
        r matches Some(k) ==> k < bins@.len() && lookup_binary(bins_view(bins@), key@) == Some(
            (bins@[k as int].content_type@, bins@[k as int].content@),
        ),
        r is None ==> lookup_binary(bins_view(bins@), key@) is None,
{
    let mut n = bins.len();
    assert(bins_view(bins@).take(n as int) =~= bins_view(bins@));
    while n > 0
        invariant
            n <= bins@.len(),
            lookup_binary(bins_view(bins@), key@) == lookup_binary(
                bins_view(bins@).take(n as int),
                key@,
            ),
        decreases n,
    {
        let ghost t = bins_view(bins@).take(n as int);
        assert(t.last() == bins_view(bins@)[n - 1]);
        assert(t.drop_last() =~= bins_view(bins@).take(n - 1));
        let id = chars_of(bins[n - 1].id.as_str());
        if crate::text::chars_eq(id.as_slice(), key) {
            return Some(n - 1);
        }
        n = n - 1;
    }
    None
}

// ---------------------------------------------------------------------------
// Images
// ---------------------------------------------------------------------------

/// The `<img>` (inline) or `<figure>` for an image whose binary is known, else nothing.
pub open spec fn image_html(img: Fb2Image, bins: Seq<(Seq<char>, Seq<char>, Seq<char>)>, inline: bool) -> Seq<char> {
    let alt = match img.alt {
        Some(a) => a@,
        None => Seq::empty(),
    };
    match img.href {
        None => Seq::empty(),
        Some(h) => match lookup_binary(bins, strip_hashes(h@)) {
            None => Seq::empty(),
            Some(b) => if inline {
                "<img class=\"fb2-inline-image\" src=\"data:"@ + b.0 + ";base64,"@ + b.1 + "\" alt=\""@
                    + escape(alt) + "\"/>"@
            } else {
                "<figure class=\"fb2-image\"><img src=\"data:"@ + b.0 + ";base64,"@ + b.1
                    + "\" alt=\""@ + escape(alt) + "\"/></figure>"@
            },
        },
    }
}

fn render_image(out: &mut String, img: &Fb2Image, bins: &Vec<Fb2Binary>, inline: bool)
    ensures
        final(out)@ == old(out)@ + image_html(*img, bins_view(bins@), inline),
{
    if let Some(h) = &img.href {
        let key = strip_hashes_exec(h.as_str());
        if let Some(k) = lookup_binary_exec(bins, key.as_slice()) {
            let b = &bins[k];
            if inline {
                out.append("<img class=\"fb2-inline-image\" src=\"data:");
            } else {
                out.append("<figure class=\"fb2-image\"><img src=\"data:");
            }
            out.append(b.content_type.as_str());
            out.append(";base64,");
            out.append(b.content.as_str());
            out.append("\" alt=\"");
            match &img.alt {
                Some(a) => push_escaped(out, chars_of(a.as_str()).as_slice()),
                None => {
                    push_escaped(out, chars_of("").as_slice());
                    proof {
                        reveal_strlit("");
                    }
                },
            }
            if inline {
                out.append("\"/>");
            } else {
                out.append("\"/></figure>");
            }
            assert(out@ =~= old(out)@ + image_html(*img, bins_view(bins@), inline));
            return ;
        }
    }
    assert(out@ =~= old(out)@ + image_html(*img, bins_view(bins@), inline));
}

// ---------------------------------------------------------------------------
// Inline markup
// ---------------------------------------------------------------------------

/// HTML of one inline element.
pub open spec fn style_html(e: StyleElement, bins: Seq<(Seq<char>, Seq<char>, Seq<char>)>) -> Seq<char>
    decreases e,
{
    match e {
        StyleElement::Text(t) => escape(t@),
        StyleElement::Strong(v) => "<strong>"@ + styles_html(v@, bins) + "</strong>"@,
        StyleElement::Emphasis(v) => "<em>"@ + styles_html(v@, bins) + "</em>"@,
        StyleElement::Strikethrough(v) => "<s>"@ + styles_html(v@, bins) + "</s>"@,
        StyleElement::Subscript(v) => "<sub>"@ + styles_html(v@, bins) + "</sub>"@,
        StyleElement::Superscript(v) => "<sup>"@ + styles_html(v@, bins) + "</sup>"@,
        StyleElement::Code(v) => "<code>"@ + styles_html(v@, bins) + "</code>"@,
        StyleElement::Style(v) => styles_html(v@, bins),
        StyleElement::Link { href, elements } => {
            let h = match href {
                Some(h) => h@,
                None => "#"@,
            };
            "<a href=\""@ + escape(h) + "\">"@ + links_html(elements@, bins) + "</a>"@
        },
        StyleElement::Image(img) => image_html(img, bins, true),
    }
}

/// HTML of a run of inline elements.
pub open spec fn styles_html(s: Seq<StyleElement>, bins: Seq<(Seq<char>, Seq<char>, Seq<char>)>) -> Seq<char>
    decreases s,
{
    if s.len() == 0 {
        Seq::empty()
    } else {
        styles_html(s.drop_last(), bins) + style_html(s.last(), bins)
    }
}

/// HTML of one element inside a link.
pub open spec fn link_html(e: StyleLinkElement, bins: Seq<(Seq<char>, Seq<char>, Seq<char>)>) -> Seq<char>
    decreases e,
{
    match e {
        StyleLinkElement::Text(t) => escape(t@),
        StyleLinkElement::Strong(v) => "<strong>"@ + links_html(v@, bins) + "</strong>"@,
        StyleLinkElement::Emphasis(v) => "<em>"@ + links_html(v@, bins) + "</em>"@,
        StyleLinkElement::Style(v) => links_html(v@, bins),
        StyleLinkElement::Strikethrough(v) => "<s>"@ + links_html(v@, bins) + "</s>"@,
        StyleLinkElement::Subscript(v) => "<sub>"@ + links_html(v@, bins) + "</sub>"@,
        StyleLinkElement::Superscript(v) => "<sup>"@ + links_html(v@, bins) + "</sup>"@,
        StyleLinkElement::Code(v) => "<code>"@ + links_html(v@, bins) + "</code>"@,
        StyleLinkElement::Image(img) => image_html(img, bins, true),
    }
}

/// HTML of a run of link elements.
pub open spec fn links_html(s: Seq<StyleLinkElement>, bins: Seq<(Seq<char>, Seq<char>, Seq<char>)>) -> Seq<char>
    decreases s,
{
    if s.len() == 0 {
        Seq::empty()
    } else {
        links_html(s.drop_last(), bins) + link_html(s.last(), bins)
    }
}

/// Rendering a run of inline elements distributes over concatenation, and a
/// run of one element renders as that element.
pub proof fn lemma_styles_html_concat(
    a: Seq<StyleElement>,
    b: Seq<StyleElement>,
    bins: Seq<(Seq<char>, Seq<char>, Seq<char>)>,
)
    ensures
        styles_html(a + b, bins) == styles_html(a, bins) + styles_html(b, bins),
        forall|e: StyleElement| #[trigger] styles_html(seq![e], bins) == style_html(e, bins),
    decreases b.len(),
{
    assert forall|e: StyleElement| #[trigger] styles_html(seq![e], bins) == style_html(e, bins) by {
        let one = seq![e];
        assert(one.len() == 1 && one.last() == e);
        assert(one.drop_last() =~= Seq::<StyleElement>::empty());
        assert(styles_html(Seq::<StyleElement>::empty(), bins) == Seq::<char>::empty());
        assert(styles_html(one, bins) == styles_html(one.drop_last(), bins) + style_html(e, bins));
        assert(Seq::<char>::empty() + style_html(e, bins) =~= style_html(e, bins));
    }
    if b.len() == 0 {
        assert(a + b =~= a);
        assert(styles_html(a, bins) + Seq::<char>::empty() =~= styles_html(a, bins));
    } else {
        lemma_styles_html_concat(a, b.drop_last(), bins);
        assert((a + b).drop_last() =~= a + b.drop_last());
        assert((a + b).last() == b.last());
        assert(styles_html(a + b, bins) =~= styles_html(a, bins) + styles_html(b, bins));
    }
}

/// Rendering a run of link elements distributes over concatenation, and a run
/// of one element renders as that element.
pub proof fn lemma_links_html_concat(
    a: Seq<StyleLinkElement>,
    b: Seq<StyleLinkElement>,
    bins: Seq<(Seq<char>, Seq<char>, Seq<char>)>,
)
    ensures
        links_html(a + b, bins) == links_html(a, bins) + links_html(b, bins),
        forall|e: StyleLinkElement| #[trigger] links_html(seq![e], bins) == link_html(e, bins),
    decreases b.len(),
{
    assert forall|e: StyleLinkElement| #[trigger] links_html(seq![e], bins) == link_html(e, bins) by {
        let one = seq![e];
        assert(one.len() == 1 && one.last() == e);
        assert(one.drop_last() =~= Seq::<StyleLinkElement>::empty());
        assert(links_html(Seq::<StyleLinkElement>::empty(), bins) == Seq::<char>::empty());
        assert(links_html(one, bins) == links_html(one.drop_last(), bins) + link_html(e, bins));
        assert(Seq::<char>::empty() + link_html(e, bins) =~= link_html(e, bins));
    }
    if b.len() == 0 {
        assert(a + b =~= a);
        assert(links_html(a, bins) + Seq::<char>::empty() =~= links_html(a, bins));
    } else {
        lemma_links_html_concat(a, b.drop_last(), bins);
        assert((a + b).drop_last() =~= a + b.drop_last());
        assert((a + b).last() == b.last());
        assert(links_html(a + b, bins) =~= links_html(a, bins) + links_html(b, bins));
    }
}

pub fn render_style_link_elements(out: &mut String, s: &Vec<StyleLinkElement>, bins: &Vec<Fb2Binary>)
    ensures
        final(out)@ == old(out)@ + links_html(s@, bins_view(bins@)),
    decreases s@,
{
    let ghost o = out@;
    let mut i: usize = 0;
    while i < s.len()
        invariant
            i <= s@.len(),
            out@ == o + links_html(s@.take(i as int), bins_view(bins@)),
        decreases s@.len() - i,
    {
        assert(s@.take(i + 1).drop_last() =~= s@.take(i as int));
        assert(s@.take(i + 1).last() == s@[i as int]);
        push_link(out, &s[i], bins);
        i = i + 1;
        assert(out@ =~= o + links_html(s@.take(i as int), bins_view(bins@)));
    }
    assert(s@.take(s@.len() as int) =~= s@);
}

fn push_link(out: &mut String, e: &StyleLinkElement, bins: &Vec<Fb2Binary>)
    ensures
        final(out)@ == old(out)@ + link_html(*e, bins_view(bins@)),
    decreases *e,
{
    match e {
        StyleLinkElement::Text(t) => push_escaped(out, chars_of(t.as_str()).as_slice()),
        StyleLinkElement::Strong(v) => {
            out.append("<strong>");
            render_style_link_elements(out, v, bins);
            out.append("</strong>");
        },
        StyleLinkElement::Emphasis(v) => {
            out.append("<em>");
            render_style_link_elements(out, v, bins);
            out.append("</em>");
        },
        StyleLinkElement::Style(v) => render_style_link_elements(out, v, bins),
        StyleLinkElement::Strikethrough(v) => {
            out.append("<s>");
            render_style_link_elements(out, v, bins);
            out.append("</s>");
        },
        StyleLinkElement::Subscript(v) => {
            out.append("<sub>");
            render_style_link_elements(out, v, bins);
            out.append("</sub>");
        },
        StyleLinkElement::Superscript(v) => {
            out.append("<sup>");
            render_style_link_elements(out, v, bins);
            out.append("</sup>");
        },
        StyleLinkElement::Code(v) => {
            out.append("<code>");
            render_style_link_elements(out, v, bins);
            out.append("</code>");
        },
        StyleLinkElement::Image(img) => render_image(out, img, bins, true),
    }
    assert(out@ =~= old(out)@ + link_html(*e, bins_view(bins@)));
}

fn push_styles(out: &mut String, s: &Vec<StyleElement>, bins: &Vec<Fb2Binary>)
    ensures
        final(out)@ == old(out)@ + styles_html(s@, bins_view(bins@)),
    decreases s@,
{
    let ghost o = out@;
    let mut i: usize = 0;
    while i < s.len()
        invariant
            i <= s@.len(),
            out@ == o + styles_html(s@.take(i as int), bins_view(bins@)),
        decreases s@.len() - i,
    {
        assert(s@.take(i + 1).drop_last() =~= s@.take(i as int));
        assert(s@.take(i + 1).last() == s@[i as int]);
        push_style(out, &s[i], bins);
        i = i + 1;
        assert(out@ =~= o + styles_html(s@.take(i as int), bins_view(bins@)));
    }
    assert(s@.take(s@.len() as int) =~= s@);
}

fn push_style(out: &mut String, e: &StyleElement, bins: &Vec<Fb2Binary>)
    ensures
        final(out)@ == old(out)@ + style_html(*e, bins_view(bins@)),
    decreases *e,
{
    match e {
        StyleElement::Text(t) => push_escaped(out, chars_of(t.as_str()).as_slice()),
        StyleElement::Strong(v) => {
            out.append("<strong>");
            push_styles(out, v, bins);
            out.append("</strong>");
        },
        StyleElement::Emphasis(v) => {
            out.append("<em>");
            push_styles(out, v, bins);
            out.append("</em>");
        },
        StyleElement::Strikethrough(v) => {
            out.append("<s>");
            push_styles(out, v, bins);
            out.append("</s>");
        },
        StyleElement::Subscript(v) => {
            out.append("<sub>");
            push_styles(out, v, bins);
            out.append("</sub>");
        },
        StyleElement::Superscript(v) => {
            out.append("<sup>");
            push_styles(out, v, bins);
            out.append("</sup>");
        },
        StyleElement::Code(v) => {
            out.append("<code>");
            push_styles(out, v, bins);
            out.append("</code>");
        },
        StyleElement::Style(v) => push_styles(out, v, bins),
        StyleElement::Link { href, elements } => {
            out.append("<a href=\"");
            match href {
                Some(h) => push_escaped(out, chars_of(h.as_str()).as_slice()),
                None => push_escaped(out, chars_of("#").as_slice()),
            }
            out.append("\">");
            render_style_link_elements(out, elements, bins);
            out.append("</a>");
        },
        StyleElement::Image(img) => render_image(out, img, bins, true),
    }
    assert(out@ =~= old(out)@ + style_html(*e, bins_view(bins@)));
}

/// Renders inline elements to a new string.
pub fn render_style_elements(elements: &Vec<StyleElement>, bins: &Vec<Fb2Binary>) -> (r: String)
    ensures
        r@ == styles_html(elements@, bins_view(bins@)),
{
    let mut out = String::new();
    push_styles(&mut out, elements, bins);
    assert(out@ =~= styles_html(elements@, bins_view(bins@)));
    out
}


// ---------------------------------------------------------------------------
// Plain text of inline markup
// ---------------------------------------------------------------------------

/// Plain text of one inline element; nested runs are already whitespace-collapsed.
pub open spec fn plain_of(e: StyleElement) -> Seq<char>
    decreases e,
{
    match e {
        StyleElement::Text(t) => t@,
        StyleElement::Strong(v) => collapse_ws(plain_cat(v@)),
        StyleElement::Emphasis(v) => collapse_ws(plain_cat(v@)),
        StyleElement::Strikethrough(v) => collapse_ws(plain_cat(v@)),
        StyleElement::Subscript(v) => collapse_ws(plain_cat(v@)),
        StyleElement::Superscript(v) => collapse_ws(plain_cat(v@)),
        StyleElement::Code(v) => collapse_ws(plain_cat(v@)),
        StyleElement::Style(v) => collapse_ws(plain_cat(v@)),
        StyleElement::Link { .. } => Seq::empty(),
        StyleElement::Image(_) => Seq::empty(),
    }
}

pub open spec fn plain_cat(s: Seq<StyleElement>) -> Seq<char>
    decreases s,
{
    if s.len() == 0 {
        Seq::empty()
    } else {
        plain_cat(s.drop_last()) + plain_of(s.last())
    }
}

/// Plain text of inline markup, words joined by single spaces (links and images omitted).
pub open spec fn plain_text(s: Seq<StyleElement>) -> Seq<char> {
    collapse_ws(plain_cat(s))
}

fn push_plain_cat(out: &mut Vec<char>, s: &Vec<StyleElement>)
    ensures
        final(out)@ == old(out)@ + plain_cat(s@),
    decreases s@, 0nat,
{
    let ghost o = out@;
    let mut i: usize = 0;
    while i < s.len()
        invariant
            i <= s@.len(),
            out@ == o + plain_cat(s@.take(i as int)),
        decreases s@.len() - i,
    {
        assert(s@.take(i + 1).drop_last() =~= s@.take(i as int));
        assert(s@.take(i + 1).last() == s@[i as int]);
        push_plain(out, &s[i]);
        i = i + 1;
        assert(out@ =~= o + plain_cat(s@.take(i as int)));
    }
    assert(s@.take(s@.len() as int) =~= s@);
}

fn push_plain(out: &mut Vec<char>, e: &StyleElement)
    ensures
        final(out)@ == old(out)@ + plain_of(*e),
    decreases *e, 0nat,
{
    match e {
        StyleElement::Text(t) => {
            let v = chars_of(t.as_str());
            let mut i: usize = 0;
            let ghost o = out@;
            while i < v.len()
                invariant
                    i <= v@.len(),
                    out@ == o + v@.take(i as int),
                decreases v@.len() - i,
            {
                out.push(v[i]);
                i = i + 1;
                assert(out@ =~= o + v@.take(i as int));
            }
            assert(v@.take(v@.len() as int) =~= v@);
        },
        StyleElement::Strong(v) | StyleElement::Emphasis(v) | StyleElement::Strikethrough(v)
        | StyleElement::Subscript(v) | StyleElement::Superscript(v) | StyleElement::Code(v)
        | StyleElement::Style(v) => {
            let t = style_elements_plain(v);
            let ghost o = out@;
            let mut i: usize = 0;
            while i < t.len()
                invariant
                    i <= t@.len(),
                    out@ == o + t@.take(i as int),
                decreases t@.len() - i,
            {
                out.push(t[i]);
                i = i + 1;
                assert(out@ =~= o + t@.take(i as int));
            }
            assert(t@.take(t@.len() as int) =~= t@);
        },
        StyleElement::Link { .. } => {
            assert(out@ =~= old(out)@ + Seq::<char>::empty());
        },
        StyleElement::Image(_) => {
            assert(out@ =~= old(out)@ + Seq::<char>::empty());
        },
    }
}

/// Plain text of inline markup.
fn style_elements_plain(elements: &Vec<StyleElement>) -> (r: Vec<char>)
    ensures
        r@ == plain_text(elements@),
    decreases elements@, 1nat,
{
    let mut out: Vec<char> = Vec::new();
    push_plain_cat(&mut out, elements);
    assert(out@ =~= plain_cat(elements@));
    collapse_whitespace(out.as_slice())
}


// ---------------------------------------------------------------------------
// Titles
// ---------------------------------------------------------------------------

/// Plain text and inner HTML of the title lines seen so far.
pub open spec fn title_state(els: Seq<TitleElement>, bins: Seq<(Seq<char>, Seq<char>, Seq<char>)>) -> (
    Seq<char>,
    Seq<char>,
)
    decreases els.len(),
{
    if els.len() == 0 {
        (Seq::empty(), Seq::empty())
    } else {
        let st = title_state(els.drop_last(), bins);
        match els.last() {
            TitleElement::Paragraph(v) => {
                let r = styles_html(v@, bins);
                let text = if st.0.len() > 0 {
                    st.0.push(' ')
                } else {
                    st.0
                };
                (text + untagged(r), st.1 + "<div class=\"fb2-title-line\">"@ + r + "</div>"@)
            },
            TitleElement::EmptyLine => (st.0, st.1 + "<br/>"@),
        }
    }
}

/// `level.clamp(1, 6)`.
pub open spec fn clamp_level(level: u8) -> u8 {
    if level < 1 {
        1
    } else if level > 6 {
        6
    } else {
        level
    }
}

/// A title as an `<hN class="fb2-title">` heading.
pub open spec fn title_html(t: Fb2Title, level: u8, bins: Seq<(Seq<char>, Seq<char>, Seq<char>)>) -> Seq<char> {
    let n = decimal(clamp_level(level) as nat);
    "<h"@ + n + " class=\"fb2-title\">"@ + title_state(t.elements@, bins).1 + "</h"@ + n + ">"@
}

/// The TOC entry a title adds: only for a section with an id, and only when its text is not blank.
pub open spec fn title_toc(
    t: Fb2Title,
    level: u8,
    id: Option<Seq<char>>,
    bins: Seq<(Seq<char>, Seq<char>, Seq<char>)>,
) -> Seq<TocView> {
    match id {
        None => Seq::empty(),
        Some(i) => {
            let tt = trim(title_state(t.elements@, bins).0);
            if tt.len() > 0 {
                seq![TocView { id: i, title: tt, level }]
            } else {
                Seq::empty()
            }
        },
    }
}

fn push_chars(out: &mut Vec<char>, v: &[char])
    ensures
        final(out)@ == old(out)@ + v@,
{
    let ghost o = out@;
    let mut i: usize = 0;
    while i < v.len()
        invariant
            i <= v@.len(),
            out@ == o + v@.take(i as int),
        decreases v@.len() - i,
    {
        out.push(v[i]);
        i = i + 1;
        assert(out@ =~= o + v@.take(i as int));
    }
    assert(v@.take(v@.len() as int) =~= v@);
}

fn clamp_level_exec(level: u8) -> (r: u8)
    ensures
        r == clamp_level(level),
{
    if level < 1 {
        1
    } else if level > 6 {
        6
    } else {
        level
    }
}

/// Renders a title and, for a section title, records its TOC entry.
fn render_title(
    out: &mut String,
    title: &Fb2Title,
    level: u8,
    id: Option<&str>,
    toc: &mut Vec<TocEntry>,
    bins: &Vec<Fb2Binary>,
)
    ensures
        final(out)@ == old(out)@ + title_html(*title, level, bins_view(bins@)),
        toc_view(final(toc)@) == toc_view(old(toc)@) + title_toc(
            *title,
            level,
            match id {
                Some(i) => Some(i@),
                None => None,
            },
            bins_view(bins@),
        ),
{
    let ghost b = bins_view(bins@);
    let mut text: Vec<char> = Vec::new();
    let mut inner = String::new();
    let mut i: usize = 0;
    while i < title.elements.len()
        invariant
            i <= title.elements@.len(),
            b == bins_view(bins@),
            (text@, inner@) == title_state(title.elements@.take(i as int), b),
        decreases title.elements@.len() - i,
    {
        let ghost els = title.elements@.take(i + 1);
        assert(els.drop_last() =~= title.elements@.take(i as int));
        assert(els.last() == title.elements@[i as int]);
        match &title.elements[i] {
            TitleElement::Paragraph(v) => {
                let rendered = render_style_elements(v, bins);
                if text.len() > 0 {
                    text.push(' ');
                }
                let rv = chars_of(rendered.as_str());
                let stripped = crate::html_util::remove_tags(rv.as_slice());
                push_chars(&mut text, stripped.as_slice());
                inner.append("<div class=\"fb2-title-line\">");
                inner.append(rendered.as_str());
                inner.append("</div>");
            },
            TitleElement::EmptyLine => {
                inner.append("<br/>");
            },
        }
        i = i + 1;
        assert((text@, inner@) =~= title_state(title.elements@.take(i as int), b));
    }
    assert(title.elements@.take(title.elements@.len() as int) =~= title.elements@);
    if let Some(section_id) = id {
        let tt = trim_chars(text.as_slice());
        if tt.len() > 0 {
            toc.push(
                TocEntry { id: String::from_str(section_id), title: string_of(tt.as_slice()), level },
            );
        }
    }
    let n = clamp_level_exec(level) as usize;
    out.append("<h");
    push_decimal(out, n);
    out.append(" class=\"fb2-title\">");
    out.append(inner.as_str());
    out.append("</h");
    push_decimal(out, n);
    out.append(">");
    assert(out@ =~= old(out)@ + title_html(*title, level, b));
    assert(toc_view(toc@) =~= toc_view(old(toc)@) + title_toc(
        *title,
        level,
        match id {
            Some(i) => Some(i@),
            None => None,
        },
        b,
    ));
}


// ---------------------------------------------------------------------------
// Poems, citations and section blocks
// ---------------------------------------------------------------------------

pub type Bins = Seq<(Seq<char>, Seq<char>, Seq<char>)>;

/// `<footer>` lines for the text authors of a poem or citation.
pub open spec fn footers_html(authors: Seq<Vec<StyleElement>>, bins: Bins) -> Seq<char>
    decreases authors.len(),
{
    if authors.len() == 0 {
        Seq::empty()
    } else {
        footers_html(authors.drop_last(), bins) + "<footer>"@ + styles_html(authors.last()@, bins)
            + "</footer>"@
    }
}

/// The verses of a stanza.
pub open spec fn verses_html(lines: Seq<Vec<StyleElement>>, bins: Bins) -> Seq<char>
    decreases lines.len(),
{
    if lines.len() == 0 {
        Seq::empty()
    } else {
        verses_html(lines.drop_last(), bins) + "<div class=\"fb2-verse\">"@ + styles_html(
            lines.last()@,
            bins,
        ) + "</div>"@
    }
}

pub open spec fn stanza_html(st: PoemStanza, bins: Bins) -> Seq<char> {
    match st {
        PoemStanza::Subtitle(v) => "<h4 class=\"fb2-subtitle\">"@ + styles_html(v@, bins) + "</h4>"@,
        PoemStanza::Stanza(lines) => "<div class=\"fb2-stanza\">"@ + verses_html(lines@, bins)
            + "</div>"@,
    }
}

pub open spec fn stanzas_html(s: Seq<PoemStanza>, bins: Bins) -> Seq<char>
    decreases s.len(),
{
    if s.len() == 0 {
        Seq::empty()
    } else {
        stanzas_html(s.drop_last(), bins) + stanza_html(s.last(), bins)
    }
}

/// A poem: optional `<h3>` title, stanzas and text authors.
pub open spec fn poem_html(p: Fb2Poem, bins: Bins) -> Seq<char> {
    let t = match p.title {
        Some(t) => title_html(t, 3, bins),
        None => Seq::empty(),
    };
    "<div class=\"fb2-poem\">"@ + t + stanzas_html(p.stanzas@, bins) + footers_html(
        p.text_authors@,
        bins,
    ) + "</div>"@
}

pub open spec fn cite_el_html(e: CiteElement, bins: Bins) -> Seq<char> {
    match e {
        CiteElement::Paragraph(v) => "<p>"@ + styles_html(v@, bins) + "</p>"@,
        CiteElement::Poem(p) => poem_html(p, bins),
        CiteElement::Subtitle(v) => "<h4>"@ + styles_html(v@, bins) + "</h4>"@,
        CiteElement::EmptyLine => "<br/>"@,
        CiteElement::Table => "<!-- table omitted -->"@,
    }
}

pub open spec fn cite_els_html(s: Seq<CiteElement>, bins: Bins) -> Seq<char>
    decreases s.len(),
{
    if s.len() == 0 {
        Seq::empty()
    } else {
        cite_els_html(s.drop_last(), bins) + cite_el_html(s.last(), bins)
    }
}

/// A citation as a `<blockquote>`.
pub open spec fn cite_html(c: Fb2Cite, bins: Bins) -> Seq<char> {
    "<blockquote class=\"fb2-cite\">"@ + cite_els_html(c.elements@, bins) + footers_html(
        c.text_authors@,
        bins,
    ) + "</blockquote>"@
}

/// One block of a section.
pub open spec fn part_html(p: SectionPart, bins: Bins) -> Seq<char> {
    match p {
        SectionPart::Paragraph(v) => "<p>"@ + styles_html(v@, bins) + "</p>"@,
        SectionPart::Subtitle(v) => "<h3 class=\"fb2-subtitle\">"@ + styles_html(v@, bins)
            + "</h3>"@,
        SectionPart::EmptyLine => "<p class=\"fb2-empty\">&nbsp;</p>"@,
        SectionPart::Image(img) => image_html(img, bins, false),
        SectionPart::Cite(c) => cite_html(c, bins),
        SectionPart::Poem(p) => poem_html(p, bins),
        SectionPart::Table => "<p><em>[table]</em></p>"@,
    }
}

pub open spec fn parts_html(s: Seq<SectionPart>, bins: Bins) -> Seq<char>
    decreases s.len(),
{
    if s.len() == 0 {
        Seq::empty()
    } else {
        parts_html(s.drop_last(), bins) + part_html(s.last(), bins)
    }
}

/// Appends `open + styles + close`.
fn push_wrapped(out: &mut String, open: &str, v: &Vec<StyleElement>, close: &str, bins: &Vec<Fb2Binary>)
    ensures
        final(out)@ == old(out)@ + open@ + styles_html(v@, bins_view(bins@)) + close@,
{
    out.append(open);
    push_styles(out, v, bins);
    out.append(close);
    assert(out@ =~= old(out)@ + open@ + styles_html(v@, bins_view(bins@)) + close@);
}

fn push_footers(out: &mut String, authors: &Vec<Vec<StyleElement>>, bins: &Vec<Fb2Binary>)
    ensures
        final(out)@ == old(out)@ + footers_html(authors@, bins_view(bins@)),
{
    let ghost o = out@;
    let mut i: usize = 0;
    while i < authors.len()
        invariant
            i <= authors@.len(),
            out@ == o + footers_html(authors@.take(i as int), bins_view(bins@)),
        decreases authors@.len() - i,
    {
        assert(authors@.take(i + 1).drop_last() =~= authors@.take(i as int));
        assert(authors@.take(i + 1).last() == authors@[i as int]);
        push_wrapped(out, "<footer>", &authors[i], "</footer>", bins);
        i = i + 1;
        assert(out@ =~= o + footers_html(authors@.take(i as int), bins_view(bins@)));
    }
    assert(authors@.take(authors@.len() as int) =~= authors@);
}

fn render_poem(out: &mut String, poem: &Fb2Poem, bins: &Vec<Fb2Binary>)
    ensures
        final(out)@ == old(out)@ + poem_html(*poem, bins_view(bins@)),
{
    let ghost b = bins_view(bins@);
    out.append("<div class=\"fb2-poem\">");
    let ghost after_open = out@;
    if let Some(title) = &poem.title {
        let mut dummy: Vec<TocEntry> = Vec::new();
        render_title(out, title, 3, None, &mut dummy, bins);
    }
    let ghost o = out@;
    let mut i: usize = 0;
    while i < poem.stanzas.len()
        invariant
            i <= poem.stanzas@.len(),
            b == bins_view(bins@),
            out@ == o + stanzas_html(poem.stanzas@.take(i as int), b),
        decreases poem.stanzas@.len() - i,
    {
        assert(poem.stanzas@.take(i + 1).drop_last() =~= poem.stanzas@.take(i as int));
        assert(poem.stanzas@.take(i + 1).last() == poem.stanzas@[i as int]);
        let ghost before = out@;
        match &poem.stanzas[i] {
            PoemStanza::Subtitle(v) => {
                push_wrapped(out, "<h4 class=\"fb2-subtitle\">", v, "</h4>", bins);
            },
            PoemStanza::Stanza(lines) => {
                out.append("<div class=\"fb2-stanza\">");
                let ghost o2 = out@;
                let mut k: usize = 0;
                while k < lines.len()
                    invariant
                        k <= lines@.len(),
                        b == bins_view(bins@),
                        out@ == o2 + verses_html(lines@.take(k as int), b),
                    decreases lines@.len() - k,
                {
                    assert(lines@.take(k + 1).drop_last() =~= lines@.take(k as int));
                    assert(lines@.take(k + 1).last() == lines@[k as int]);
                    push_wrapped(out, "<div class=\"fb2-verse\">", &lines[k], "</div>", bins);
                    k = k + 1;
                    assert(out@ =~= o2 + verses_html(lines@.take(k as int), b));
                }
                assert(lines@.take(lines@.len() as int) =~= lines@);
                out.append("</div>");
            },
        }
        assert(out@ =~= before + stanza_html(poem.stanzas@[i as int], b));
        i = i + 1;
        assert(out@ =~= o + stanzas_html(poem.stanzas@.take(i as int), b));
    }
    assert(poem.stanzas@.take(poem.stanzas@.len() as int) =~= poem.stanzas@);
    push_footers(out, &poem.text_authors, bins);
    out.append("</div>");
    assert(out@ =~= old(out)@ + poem_html(*poem, b));
}

fn push_cite(out: &mut String, cite: &Fb2Cite, bins: &Vec<Fb2Binary>)
    ensures
        final(out)@ == old(out)@ + cite_html(*cite, bins_view(bins@)),
{
    let ghost b = bins_view(bins@);
    out.append("<blockquote class=\"fb2-cite\">");
    let ghost o = out@;
    let mut i: usize = 0;
    while i < cite.elements.len()
        invariant
            i <= cite.elements@.len(),
            b == bins_view(bins@),
            out@ == o + cite_els_html(cite.elements@.take(i as int), b),
        decreases cite.elements@.len() - i,
    {
        assert(cite.elements@.take(i + 1).drop_last() =~= cite.elements@.take(i as int));
        assert(cite.elements@.take(i + 1).last() == cite.elements@[i as int]);
        let ghost before = out@;
        match &cite.elements[i] {
            CiteElement::Paragraph(v) => push_wrapped(out, "<p>", v, "</p>", bins),
            CiteElement::Poem(p) => render_poem(out, p, bins),
            CiteElement::Subtitle(v) => push_wrapped(out, "<h4>", v, "</h4>", bins),
            CiteElement::EmptyLine => out.append("<br/>"),
            CiteElement::Table => out.append("<!-- table omitted -->"),
        }
        assert(out@ =~= before + cite_el_html(cite.elements@[i as int], b));
        i = i + 1;
        assert(out@ =~= o + cite_els_html(cite.elements@.take(i as int), b));
    }
    assert(cite.elements@.take(cite.elements@.len() as int) =~= cite.elements@);
    push_footers(out, &cite.text_authors, bins);
    out.append("</blockquote>");
    assert(out@ =~= old(out)@ + cite_html(*cite, b));
}

fn render_part(out: &mut String, part: &SectionPart, bins: &Vec<Fb2Binary>)
    ensures
        final(out)@ == old(out)@ + part_html(*part, bins_view(bins@)),
{
    match part {
        SectionPart::Paragraph(v) => push_wrapped(out, "<p>", v, "</p>", bins),
        SectionPart::Subtitle(v) => push_wrapped(out, "<h3 class=\"fb2-subtitle\">", v, "</h3>", bins),
        SectionPart::EmptyLine => out.append("<p class=\"fb2-empty\">&nbsp;</p>"),
        SectionPart::Image(img) => render_image(out, img, bins, false),
        SectionPart::Cite(c) => push_cite(out, c, bins),
        SectionPart::Poem(p) => render_poem(out, p, bins),
        SectionPart::Table => out.append("<p><em>[table]</em></p>"),
    }
}

/// Title fallback when a section has no formal title: the first non-empty
/// subtitle, or a short (at most 80 characters) first paragraph; empty lines
/// are skipped and any other block ends the search.
pub open spec fn fallback_title(parts: Seq<SectionPart>) -> Option<Seq<char>>
    decreases parts.len(),
{
    if parts.len() == 0 {
        None
    } else {
        match parts[0] {
            SectionPart::Subtitle(v) => {
                let t = plain_text(v@);
                if t.len() > 0 {
                    Some(t)
                } else {
                    fallback_title(parts.skip(1))
                }
            },
            SectionPart::Paragraph(v) => {
                let t = plain_text(v@);
                if t.len() > 0 && t.len() <= 80 {
                    Some(t)
                } else {
                    None
                }
            },
            SectionPart::EmptyLine => fallback_title(parts.skip(1)),
            _ => None,
        }
    }
}

/// Title fallback when a section has no formal `<title>`.
fn fallback_section_title(content: &SectionContent) -> (r: Option<Vec<char>>)
    ensures
        r matches Some(t) ==> fallback_title(content.content@) == Some(t@),
        r is None ==> fallback_title(content.content@) is None,
{
    let parts = &content.content;
    let mut i: usize = 0;
    assert(parts@.skip(0) =~= parts@);
    while i < parts.len()
        invariant
            i <= parts@.len(),
            parts@ == content.content@,
            fallback_title(parts@) == fallback_title(parts@.skip(i as int)),
        decreases parts@.len() - i,
    {
        assert(parts@.skip(i as int)[0] == parts@[i as int]);
        assert(parts@.skip(i as int).skip(1) =~= parts@.skip(i + 1));
        match &parts[i] {
            SectionPart::Subtitle(v) => {
                let t = style_elements_plain(v);
                if t.len() > 0 {
                    assert(fallback_title(parts@.skip(i as int)) == Some(t@));
                    return Some(t);
                }
            },
            SectionPart::Paragraph(v) => {
                let t = style_elements_plain(v);
                if t.len() > 0 && t.len() <= 80 {
                    assert(fallback_title(parts@.skip(i as int)) == Some(t@));
                    return Some(t);
                }
                return None;
            },
            SectionPart::EmptyLine => {},
            _ => {
                return None;
            },
        }
        i = i + 1;
    }
    None
}


// ---------------------------------------------------------------------------
// Sections
// ---------------------------------------------------------------------------

/// `level.saturating_add(1).min(6)`.
pub open spec fn next_level(level: u8) -> u8 {
    if level >= 6 {
        6
    } else {
        (level + 1) as u8
    }
}

/// The element id of a section: its own when not empty, else `section-{level}-{index}`.
pub open spec fn section_id(s: Fb2Section, level: u8, index: nat) -> Seq<char> {
    let generated = "section-"@ + decimal(level as nat) + "-"@ + decimal(index);
    match s.id {
        Some(i) => if i@.len() > 0 {
            i@
        } else {
            generated
        },
        None => generated,
    }
}

/// HTML of a section and the TOC entries it contributes, nested sections included.
pub open spec fn section_spec(s: Fb2Section, level: u8, index: nat, bins: Bins) -> (
    Seq<char>,
    Seq<TocView>,
)
    decreases s,
{
    let id = section_id(s, level, index);
    let open = "<section class=\"fb2-section\" id=\""@ + id + "\">"@;
    match s.content {
        None => (open + "</section>"@, Seq::empty()),
        Some(c) => {
            let cs = content_spec(c, level, id, bins);
            (open + cs.0 + "</section>"@, cs.1)
        },
    }
}

/// The inside of a section with id `id`: title (or fallback TOC entry), image,
/// blocks, then nested sections one level deeper.
pub open spec fn content_spec(c: SectionContent, level: u8, id: Seq<char>, bins: Bins) -> (
    Seq<char>,
    Seq<TocView>,
)
    decreases c,
{
    let th = match c.title {
        Some(t) => title_html(t, level, bins),
        None => Seq::empty(),
    };
    let tt = match c.title {
        Some(t) => title_toc(t, level, Some(id), bins),
        None => match fallback_title(c.content@) {
            Some(f) => seq![TocView { id, title: f, level }],
            None => Seq::empty(),
        },
    };
    let ih = match c.image {
        Some(img) => image_html(img, bins, false),
        None => Seq::empty(),
    };
    let nested = sections_spec(c.sections@, next_level(level), bins);
    (th + ih + parts_html(c.content@, bins) + nested.0, tt + nested.1)
}

/// The table of contents of a section's inside ends with the entries of its
/// nested sections, one level deeper and in order; nothing of theirs is lost.
pub proof fn lemma_nested_sections_in_toc(c: SectionContent, level: u8, id: Seq<char>, bins: Bins)
    ensures
        ({
            let whole = content_spec(c, level, id, bins).1;
            let nested = sections_spec(c.sections@, next_level(level), bins).1;
            &&& whole.len() >= nested.len()
            &&& whole.subrange(whole.len() - nested.len(), whole.len() as int) == nested
        }),
{
    let whole = content_spec(c, level, id, bins).1;
    let nested = sections_spec(c.sections@, next_level(level), bins).1;
    assert(whole.subrange(whole.len() - nested.len(), whole.len() as int) =~= nested);
}

/// The entries of a run of sections are those of each section, in order: the
/// entries of section `i` follow those of the sections before it.
pub proof fn lemma_sections_toc_in_order(secs: Seq<Fb2Section>, level: u8, bins: Bins, i: int)
    requires
        0 <= i < secs.len(),
    ensures
        ({
            let all = sections_spec(secs, level, bins).1;
            let before = sections_spec(secs.take(i), level, bins).1;
            let own = section_spec(secs[i], level, i as nat, bins).1;
            &&& before.len() + own.len() <= all.len()
            &&& all.subrange(before.len() as int, (before.len() + own.len()) as int) == own
            &&& all.subrange(0, before.len() as int) == before
        }),
    decreases secs.len(),
{
    let all = sections_spec(secs, level, bins).1;
    let init = secs.drop_last();
    if i == secs.len() - 1 {
        assert(secs.take(i) =~= init);
        assert(all.subrange(0, sections_spec(init, level, bins).1.len() as int) =~= sections_spec(
            init,
            level,
            bins,
        ).1);
        assert(all.subrange(
            sections_spec(init, level, bins).1.len() as int,
            all.len() as int,
        ) =~= section_spec(secs.last(), level, (secs.len() - 1) as nat, bins).1);
    } else {
        lemma_sections_toc_in_order(init, level, bins, i);
        assert(init.take(i) =~= secs.take(i));
        assert(init[i] == secs[i]);
        let prev = sections_spec(init, level, bins).1;
        let before = sections_spec(secs.take(i), level, bins).1;
        let own = section_spec(secs[i], level, i as nat, bins).1;
        assert(all.subrange(before.len() as int, (before.len() + own.len()) as int) =~= prev.subrange(
            before.len() as int,
            (before.len() + own.len()) as int,
        ));
        assert(all.subrange(0, before.len() as int) =~= prev.subrange(0, before.len() as int));
    }
}

/// Sections in order, each numbered by its position.
pub open spec fn sections_spec(secs: Seq<Fb2Section>, level: u8, bins: Bins) -> (
    Seq<char>,
    Seq<TocView>,
)
    decreases secs,
{
    if secs.len() == 0 {
        (Seq::empty(), Seq::empty())
    } else {
        let prev = sections_spec(secs.drop_last(), level, bins);
        let last = section_spec(secs.last(), level, (secs.len() - 1) as nat, bins);
        (prev.0 + last.0, prev.1 + last.1)
    }
}

fn next_level_exec(level: u8) -> (r: u8)
    ensures
        r == next_level(level),
{
    if level >= 6 {
        6
    } else {
        level + 1
    }
}

fn section_id_exec(section: &Fb2Section, level: u8, index: usize) -> (r: String)
    ensures
        r@ == section_id(*section, level, index as nat),
{
    match &section.id {
        Some(i) => {
            if i.as_str().is_empty() == false {
                return i.clone();
            }
        },
        None => {},
    }
    let mut g = String::from_str("section-");
    push_decimal(&mut g, level as usize);
    g.append("-");
    push_decimal(&mut g, index);
    assert(g@ =~= "section-"@ + decimal(level as nat) + "-"@ + decimal(index as nat));
    g
}

fn render_section(
    out: &mut String,
    section: &Fb2Section,
    level: u8,
    index: usize,
    toc: &mut Vec<TocEntry>,
    bins: &Vec<Fb2Binary>,
)
    ensures
        final(out)@ == old(out)@ + section_spec(*section, level, index as nat, bins_view(bins@)).0,
        toc_view(final(toc)@) == toc_view(old(toc)@) + section_spec(
            *section,
            level,
            index as nat,
            bins_view(bins@),
        ).1,
    decreases *section, 1nat,
{
    let ghost b = bins_view(bins@);
    let id = section_id_exec(section, level, index);
    out.append("<section class=\"fb2-section\" id=\"");
    out.append(id.as_str());
    out.append("\">");
    match &section.content {
        None => {
            assert(toc_view(toc@) =~= toc_view(old(toc)@) + Seq::<TocView>::empty());
        },
        Some(content) => {
            push_section_content(out, content, level, &id, toc, bins);
        },
    }
    out.append("</section>");
    assert(out@ =~= old(out)@ + section_spec(*section, level, index as nat, b).0);
}

fn push_section_content(
    out: &mut String,
    content: &SectionContent,
    level: u8,
    id: &String,
    toc: &mut Vec<TocEntry>,
    bins: &Vec<Fb2Binary>,
)
    ensures
        final(out)@ == old(out)@ + content_spec(*content, level, id@, bins_view(bins@)).0,
        toc_view(final(toc)@) == toc_view(old(toc)@) + content_spec(
            *content,
            level,
            id@,
            bins_view(bins@),
        ).1,
    decreases *content, 0nat,
{
    let ghost b = bins_view(bins@);
    let ghost toc0 = toc_view(toc@);
    match &content.title {
        Some(title) => {
            render_title(out, title, level, Some(id.as_str()), toc, bins);
        },
        None => {
            match fallback_section_title(content) {
                Some(f) => {
                    toc.push(TocEntry { id: id.clone(), title: string_of(f.as_slice()), level });
                    assert(toc_view(toc@) =~= toc0 + seq![TocView { id: id@, title: f@, level }]);
                },
                None => {
                    assert(toc_view(toc@) =~= toc0 + Seq::<TocView>::empty());
                },
            }
        },
    }
    let ghost toc1 = toc_view(toc@);
    let ghost o1 = out@;
    if let Some(image) = &content.image {
        render_image(out, image, bins, false);
    }
    let ghost o = out@;
    let mut i: usize = 0;
    while i < content.content.len()
        invariant
            i <= content.content@.len(),
            b == bins_view(bins@),
            out@ == o + parts_html(content.content@.take(i as int), b),
        decreases content.content@.len() - i,
    {
        assert(content.content@.take(i + 1).drop_last() =~= content.content@.take(i as int));
        assert(content.content@.take(i + 1).last() == content.content@[i as int]);
        render_part(out, &content.content[i], bins);
        i = i + 1;
        assert(out@ =~= o + parts_html(content.content@.take(i as int), b));
    }
    assert(content.content@.take(content.content@.len() as int) =~= content.content@);
    push_sections(out, &content.sections, next_level_exec(level), toc, bins);
    assert(out@ =~= old(out)@ + content_spec(*content, level, id@, b).0);
    assert(toc_view(toc@) =~= toc_view(old(toc)@) + content_spec(*content, level, id@, b).1);
}

fn push_sections(
    out: &mut String,
    secs: &Vec<Fb2Section>,
    level: u8,
    toc: &mut Vec<TocEntry>,
    bins: &Vec<Fb2Binary>,
)
    ensures
        final(out)@ == old(out)@ + sections_spec(secs@, level, bins_view(bins@)).0,
        toc_view(final(toc)@) == toc_view(old(toc)@) + sections_spec(secs@, level, bins_view(bins@)).1,
    decreases secs@, 2nat,
{
    let ghost b = bins_view(bins@);
    let ghost o = out@;
    let ghost t0 = toc_view(toc@);
    let mut i: usize = 0;
    while i < secs.len()
        invariant
            i <= secs@.len(),
            b == bins_view(bins@),
            out@ == o + sections_spec(secs@.take(i as int), level, b).0,
            toc_view(toc@) == t0 + sections_spec(secs@.take(i as int), level, b).1,
        decreases secs@.len() - i,
    {
        assert(secs@.take(i + 1).drop_last() =~= secs@.take(i as int));
        assert(secs@.take(i + 1).last() == secs@[i as int]);
        render_section(out, &secs[i], level, i, toc, bins);
        i = i + 1;
        assert(out@ =~= o + sections_spec(secs@.take(i as int), level, b).0);
        assert(toc_view(toc@) =~= t0 + sections_spec(secs@.take(i as int), level, b).1);
    }
    assert(secs@.take(secs@.len() as int) =~= secs@);
}


// ---------------------------------------------------------------------------
// Authors and cover
// ---------------------------------------------------------------------------

/// Words joined by single spaces.
pub open spec fn join_words(ps: Seq<Seq<char>>) -> Seq<char>
    decreases ps.len(),
{
    if ps.len() == 0 {
        Seq::empty()
    } else if ps.len() == 1 {
        ps[0]
    } else {
        join_words(ps.drop_last()) + seq![' '] + ps.last()
    }
}

pub open spec fn non_blank(s: Seq<char>) -> Seq<Seq<char>> {
    if trim(s).len() > 0 {
        seq![trim(s)]
    } else {
        Seq::empty()
    }
}

pub open spec fn trimmed_or(s: Option<String>, default: Seq<char>) -> Seq<char> {
    match s {
        Some(n) => trim(n@),
        None => default,
    }
}

/// Display name of an author: first, middle and last names that are not blank,
/// else the nickname; an anonymous author is shown by nickname or `Anonymous`.
pub open spec fn author_name(a: Fb2Author) -> Seq<char> {
    match a {
        Fb2Author::Verbose { first_name, middle_name, last_name, nickname } => {
            let m = match middle_name {
                Some(m) => non_blank(m@),
                None => Seq::empty(),
            };
            let parts = non_blank(first_name@) + m + non_blank(last_name@);
            if parts.len() == 0 {
                trimmed_or(nickname, Seq::empty())
            } else {
                join_words(parts)
            }
        },
        Fb2Author::Anonymous { nickname } => trimmed_or(nickname, "Anonymous"@),
    }
}

/// A named author is shown by every name part that is not blank, trimmed, in
/// order first, middle, last, separated by single spaces.
pub proof fn lemma_author_full_name(a: Fb2Author)
    requires
        a is Verbose,
        trim(a->first_name@).len() > 0,
        trim(a->last_name@).len() > 0,
    ensures
        author_name(a) == trim(a->first_name@) + seq![' '] + (match a->middle_name {
            Some(m) => if trim(m@).len() > 0 {
                trim(m@) + seq![' ']
            } else {
                Seq::empty()
            },
            None => Seq::empty(),
        }) + trim(a->last_name@),
{
    let f = trim(a->first_name@);
    let l = trim(a->last_name@);
    let m = match a->middle_name {
        Some(x) => non_blank(x@),
        None => Seq::empty(),
    };
    let parts = non_blank(a->first_name@) + m + non_blank(a->last_name@);
    if m.len() == 0 {
        assert(parts =~= seq![f, l]);
        assert(parts.drop_last() =~= seq![f]);
        assert(join_words(seq![f]) == f);
        assert(join_words(parts) == f + seq![' '] + l);
        assert(f + seq![' '] + Seq::<char>::empty() + l =~= f + seq![' '] + l);
    } else {
        let mm = m[0];
        assert(m =~= seq![mm]);
        assert(parts =~= seq![f, mm, l]);
        assert(parts.drop_last() =~= seq![f, mm]);
        assert(seq![f, mm].drop_last() =~= seq![f]);
        assert(join_words(seq![f]) == f);
        assert(join_words(seq![f, mm]) == f + seq![' '] + mm);
        assert(join_words(parts) == f + seq![' '] + mm + seq![' '] + l);
        assert(f + seq![' '] + (mm + seq![' ']) + l =~= f + seq![' '] + mm + seq![' '] + l);
    }
}

/// The first author's name, when there is one and it is not empty.
pub open spec fn first_author_name(authors: Seq<Fb2Author>) -> Option<Seq<char>> {
    if authors.len() == 0 {
        None
    } else if author_name(authors[0]).len() > 0 {
        Some(author_name(authors[0]))
    } else {
        None
    }
}

fn push_non_blank(parts: &mut Vec<Vec<char>>, s: &str)
    ensures
        final(parts)@.map_values(|v: Vec<char>| v@) == old(parts)@.map_values(|v: Vec<char>| v@)
            + non_blank(s@),
{
    let t = trim_chars(chars_of(s).as_slice());
    if t.len() > 0 {
        parts.push(t);
    }
    assert(parts@.map_values(|v: Vec<char>| v@) =~= old(parts)@.map_values(|v: Vec<char>| v@)
        + non_blank(s@));
}

fn trimmed_or_exec(s: &Option<String>, default: &str) -> (r: String)
    ensures
        r@ == trimmed_or(*s, default@),
{
    match s {
        Some(n) => string_of(trim_chars(chars_of(n.as_str()).as_slice()).as_slice()),
        None => String::from_str(default),
    }
}

fn format_author(author: &Fb2Author) -> (r: String)
    ensures
        r@ == author_name(*author),
{
    match author {
        Fb2Author::Verbose { first_name, middle_name, last_name, nickname } => {
            let mut parts: Vec<Vec<char>> = Vec::new();
            push_non_blank(&mut parts, first_name.as_str());
            if let Some(m) = middle_name {
                push_non_blank(&mut parts, m.as_str());
            }
            push_non_blank(&mut parts, last_name.as_str());
            let ghost ps = parts@.map_values(|v: Vec<char>| v@);
            proof {
                let m = match middle_name {
                    Some(m) => non_blank(m@),
                    None => Seq::empty(),
                };
                assert(ps =~= non_blank(first_name@) + m + non_blank(last_name@));
            }
            if parts.len() == 0 {
                let e = "";
                proof {
                    reveal_strlit("");
                }
                return trimmed_or_exec(nickname, e);
            }
            let mut out = string_of(parts[0].as_slice());
            let mut i: usize = 1;
            assert(ps.take(1) =~= seq![ps[0]]);
            while i < parts.len()
                invariant
                    1 <= i <= parts@.len(),
                    ps == parts@.map_values(|v: Vec<char>| v@),
                    out@ == join_words(ps.take(i as int)),
                decreases parts@.len() - i,
            {
                assert(ps.take(i + 1).drop_last() =~= ps.take(i as int));
                assert(ps.take(i + 1).last() == parts@[i as int]@);
                push_char(&mut out, ' ');
                let w = string_of(parts[i].as_slice());
                out.append(w.as_str());
                i = i + 1;
                assert(out@ =~= join_words(ps.take(i as int)));
            }
            assert(ps.take(parts@.len() as int) =~= ps);
            out
        },
        Fb2Author::Anonymous { nickname } => trimmed_or_exec(nickname, "Anonymous"),
    }
}

fn first_author(authors: &Vec<Fb2Author>) -> (r: Option<String>)
    ensures
        r.deep_view() == first_author_name(authors@),
{
    if authors.len() == 0 {
        return None;
    }
    let a = format_author(&authors[0]);
    if a.as_str().is_empty() {
        None
    } else {
        Some(a)
    }
}

/// The cover: the binary the cover page points to, base64-decoded.
pub open spec fn cover_spec(book: Fb2Book, bins: Bins) -> Option<(Seq<u8>, Seq<char>)> {
    match book.cover_href {
        None => None,
        Some(h) => match lookup_binary(bins, strip_hashes(h@)) {
            None => None,
            Some(b) => match base64_decoded(b.1) {
                None => None,
                Some(bytes) => Some((bytes, b.0)),
            },
        },
    }
}

fn cover_from_book(book: &Fb2Book, bins: &Vec<Fb2Binary>) -> (r: Option<CoverImage>)
    ensures
        cover_view(r) == cover_spec(*book, bins_view(bins@)),
{
    let href = match &book.cover_href {
        Some(h) => strip_hashes_exec(h.as_str()),
        None => return None,
    };
    let k = match lookup_binary_exec(bins, href.as_slice()) {
        Some(k) => k,
        None => return None,
    };
    match decode_base64(bins[k].content.as_str()) {
        Some(bytes) => Some(CoverImage { bytes, mime: bins[k].content_type.clone() }),
        None => None,
    }
}

// ---------------------------------------------------------------------------
// The book
// ---------------------------------------------------------------------------

/// Reader HTML of a book and its table of contents: the first body's title
/// (no TOC entry) and its sections from level 1, inside an `<article>`.
pub open spec fn book_spec(book: Fb2Book, bins: Bins) -> (Seq<char>, Seq<TocView>) {
    match book.body {
        None => ("<article class=\"fb2-book\">"@ + "</article>"@, Seq::empty()),
        Some(body) => {
            let th = match body.title {
                Some(t) => title_html(t, 1, bins),
                None => Seq::empty(),
            };
            let ss = sections_spec(body.sections@, 1, bins);
            ("<article class=\"fb2-book\">"@ + th + ss.0 + "</article>"@, ss.1)
        },
    }
}

/// The book title when it is not blank.
pub open spec fn book_title_spec(book: Fb2Book) -> Option<Seq<char>> {
    if trim(book.book_title@).len() > 0 {
        Some(book.book_title@)
    } else {
        None
    }
}

fn is_blank(s: &str) -> (r: bool)
    ensures
        r == (trim(s@).len() == 0),
{
    trim_chars(chars_of(s).as_slice()).len() == 0
}

pub fn parse(book: &Fb2Book) -> (r: ParsedBook)
    ensures
        r.html@ == book_spec(*book, binary_table(book.binaries@)).0,
        toc_view(r.toc@) == book_spec(*book, binary_table(book.binaries@)).1,
        r.title.deep_view() == book_title_spec(*book),
        r.author.deep_view() == first_author_name(book.authors@),
        cover_view(r.cover) == cover_spec(*book, binary_table(book.binaries@)),
{
    let title = if is_blank(book.book_title.as_str()) {
        None
    } else {
        Some(book.book_title.clone())
    };
    let author = first_author(&book.authors);
    let binaries = binary_map(book);
    let ghost b = bins_view(binaries@);
    let cover = cover_from_book(book, &binaries);
    let mut toc: Vec<TocEntry> = Vec::new();
    let mut html = String::from_str("<article class=\"fb2-book\">");
    if let Some(body) = &book.body {
        if let Some(body_title) = &body.title {
            let mut ignored: Vec<TocEntry> = Vec::new();
            render_title(&mut html, body_title, 1, None, &mut ignored, &binaries);
        }
        push_sections(&mut html, &body.sections, 1, &mut toc, &binaries);
    }
    html.append("</article>");
    assert(html@ =~= book_spec(*book, b).0);
    assert(toc_view(toc@) =~= book_spec(*book, b).1);
    ParsedBook { html, toc, title, author, cover }
}

/// Catalog metadata; a blank book title falls back to the file name.
pub fn metadata(book: &Fb2Book, path: &str) -> (r: BookMeta)
    ensures
        r.title@ == (if trim(book.book_title@).len() == 0 {
            path_title(path@)
        } else {
            book.book_title@
        }),
        r.author.deep_view() == first_author_name(book.authors@),
        cover_view(r.cover) == cover_spec(*book, binary_table(book.binaries@)),
{
    let title = if is_blank(book.book_title.as_str()) {
        title_from_path(path)
    } else {
        book.book_title.clone()
    };
    let author = first_author(&book.authors);
    let binaries = binary_map(book);
    BookMeta { title, author, cover: cover_from_book(book, &binaries) }
}

} // verus!
