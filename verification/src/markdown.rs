//! Markdown books (CommonMark with tables, strikethrough, task lists and
//! footnotes, rendered by `pulldown-cmark`): headings get ids `heading-N` and
//! make up the table of contents.
use crate::formats::ParsedBook;
use crate::models::{toc_view, TocEntry, TocView};
use crate::text::{chars_of, decimal, push_decimal, string_of, trim, trim_chars};
use pulldown_cmark::{Event, HeadingLevel, Options, Parser, Tag, TagEnd};
use vstd::prelude::*;

verus! {

/// What the table of contents needs of a parser event.
#[derive(Debug)]
pub enum MdEvent {
    HeadingStart(u8),
    HeadingEnd,
    Text(String),
    Code(String),
    Other,
}

/// The events `pulldown_cmark::Parser::new_ext` yields for a text, with the
/// options used here.
pub uninterp spec fn markdown_events(raw: Seq<char>) -> Seq<MdEvent>;

/// `pulldown_cmark::html::push_html` of those events, where each `Some(html)`
/// of `replacements` stands in for the event at its position as raw HTML.
pub uninterp spec fn markdown_rendered(raw: Seq<char>, replacements: Seq<Option<Seq<char>>>) -> Seq<char>;

/// Parses `raw` with tables, strikethrough, task lists and footnotes enabled
/// and reports each event by kind; named by `markdown_events`.
#[verifier::external_body]
fn parse_events(raw: &str) -> (r: Vec<MdEvent>)
    ensures
        r@ == markdown_events(raw@),
{
    let options = Options::ENABLE_TABLES | Options::ENABLE_STRIKETHROUGH
        | Options::ENABLE_TASKLISTS | Options::ENABLE_FOOTNOTES;
    Parser::new_ext(raw, options).map(|e| match e {
        Event::Start(Tag::Heading { level, .. }) => MdEvent::HeadingStart(level as u8),
        Event::End(TagEnd::Heading(_)) => MdEvent::HeadingEnd,
        Event::Text(t) => MdEvent::Text(t.to_string()),
        Event::Code(t) => MdEvent::Code(t.to_string()),
        _ => MdEvent::Other,
    }).collect()
}

/// Parses `raw` as `parse_events` does, puts `Event::Html` in place of the
/// events that have a replacement, and renders with `push_html`; named by
/// `markdown_rendered`.
#[verifier::external_body]
fn render_events(raw: &str, replacements: &Vec<Option<String>>) -> (r: String)
    ensures
        r@ == markdown_rendered(raw@, replacements.deep_view()),
{
    let options = Options::ENABLE_TABLES | Options::ENABLE_STRIKETHROUGH
        | Options::ENABLE_TASKLISTS | Options::ENABLE_FOOTNOTES;
    let events = Parser::new_ext(raw, options).zip(replacements.iter()).map(|(e, r)| match r {
        Some(html) => Event::Html(html.clone().into()),
        None => e,
    });
    let mut html = String::new();
    pulldown_cmark::html::push_html(&mut html, events);
    html
}

/// The id of the `n`-th heading.
pub open spec fn heading_id(n: nat) -> Seq<char> {
    "heading-"@ + decimal(n)
}

/// TOC so far, replacements so far, headings seen, inside a heading, its
/// level and the text collected from it.
pub type MdState = (Seq<TocView>, Seq<Option<Seq<char>>>, nat, bool, u8, Seq<char>);

pub open spec fn md_step(st: MdState, e: MdEvent) -> MdState {
    match e {
        MdEvent::HeadingStart(l) => {
            let n = st.2 + 1;
            (
                st.0,
                st.1.push(Some("<h"@ + decimal(l as nat) + " id=\"heading-"@ + decimal(n) + "\">"@)),
                n,
                true,
                l,
                Seq::empty(),
            )
        },
        MdEvent::HeadingEnd => if st.3 {
            let t = trim(st.5);
            let title = if t.len() == 0 {
                "Section "@ + decimal(st.2)
            } else {
                t
            };
            (
                st.0.push(TocView { id: heading_id(st.2), title, level: st.4 }),
                st.1.push(Some("</h"@ + decimal(st.4 as nat) + ">"@)),
                st.2,
                false,
                st.4,
                st.5,
            )
        } else {
            (st.0, st.1.push(None), st.2, st.3, st.4, st.5)
        },
        MdEvent::Text(t) => if st.3 {
            (st.0, st.1.push(None), st.2, st.3, st.4, st.5 + t@)
        } else {
            (st.0, st.1.push(None), st.2, st.3, st.4, st.5)
        },
        MdEvent::Code(t) => if st.3 {
            (st.0, st.1.push(None), st.2, st.3, st.4, st.5 + t@)
        } else {
            (st.0, st.1.push(None), st.2, st.3, st.4, st.5)
        },
        MdEvent::Other => (st.0, st.1.push(None), st.2, st.3, st.4, st.5),
    }
}

pub open spec fn md_fold(evs: Seq<MdEvent>) -> MdState
    decreases evs.len(),
{
    if evs.len() == 0 {
        (Seq::empty(), Seq::empty(), 0, false, 1, Seq::empty())
    } else {
        md_step(md_fold(evs.drop_last()), evs.last())
    }
}

/// Title of the first level-1 entry.
pub open spec fn first_h1(toc: Seq<TocView>) -> Option<Seq<char>>
    decreases toc.len(),
{
    if toc.len() == 0 {
        None
    } else if toc[0].level == 1 {
        Some(toc[0].title)
    } else {
        first_h1(toc.skip(1))
    }
}

/// The title is the first level-1 entry: when there is one, it is an entry of
/// level 1 with no level-1 entry before it; otherwise no entry has level 1.
pub proof fn lemma_first_h1(toc: Seq<TocView>)
    ensures
        first_h1(toc) is None <==> forall|i: int| 0 <= i < toc.len() ==> (#[trigger] toc[i]).level != 1,
        first_h1(toc) is Some ==> exists|i: int|
            0 <= i < toc.len() && (#[trigger] toc[i]).level == 1 && Some(toc[i].title) == first_h1(
                toc,
            ) && forall|j: int| 0 <= j < i ==> (#[trigger] toc[j]).level != 1,
    decreases toc.len(),
{
    if toc.len() > 0 {
        let rest = toc.skip(1);
        lemma_first_h1(rest);
        if toc[0].level == 1 {
            assert(toc[0].level == 1);
        } else {
            assert forall|i: int| 0 <= i < rest.len() implies rest[i] == toc[i + 1] by {}
            if first_h1(rest) is None {
                assert forall|i: int| 0 <= i < toc.len() implies (#[trigger] toc[i]).level != 1 by {
                    if i > 0 {
                        assert(rest[i - 1] == toc[i]);
                    }
                }
            } else {
                let k = choose|k: int|
                    0 <= k < rest.len() && (#[trigger] rest[k]).level == 1 && Some(rest[k].title)
                        == first_h1(rest) && forall|j: int| 0 <= j < k ==> (#[trigger] rest[j]).level != 1;
                assert(toc[k + 1] == rest[k]);
                assert forall|j: int| 0 <= j < k + 1 implies (#[trigger] toc[j]).level != 1 by {
                    if j > 0 {
                        assert(rest[j - 1] == toc[j]);
                    }
                }
            }
        }
    }
}

/// The table of contents of a parser's events, and for each event the raw HTML
/// that replaces it (heading tags with ids), if any.
pub fn toc_from_events(events: &Vec<MdEvent>) -> (r: (Vec<TocEntry>, Vec<Option<String>>))
    ensures
        toc_view(r.0@) == md_fold(events@).0,
        r.1.deep_view() == md_fold(events@).1,
{
    let mut toc: Vec<TocEntry> = Vec::new();
    let mut repl: Vec<Option<String>> = Vec::new();
    let mut count: usize = 0;
    let mut in_heading = false;
    let mut level: u8 = 1;
    let mut text: Vec<char> = Vec::new();
    let mut i: usize = 0;
    while i < events.len()
        invariant
            i <= events@.len(),
            count <= i,
            md_fold(events@.take(i as int)) == (
                toc_view(toc@),
                repl.deep_view(),
                count as nat,
                in_heading,
                level,
                text@,
            ),
        decreases events@.len() - i,
    {
        assert(events@.take(i + 1).drop_last() =~= events@.take(i as int));
        assert(events@.take(i + 1).last() == events@[i as int]);
        let ghost st = md_fold(events@.take(i as int));
        match &events[i] {
            MdEvent::HeadingStart(l) => {
                count = count + 1;
                level = *l;
                text.clear();
                in_heading = true;
                let mut open = String::from_str("<h");
                push_decimal(&mut open, *l as usize);
                open.append(" id=\"heading-");
                push_decimal(&mut open, count);
                open.append("\">");
                assert(open@ =~= "<h"@ + decimal(*l as nat) + " id=\"heading-"@ + decimal(count as nat) + "\">"@);
                repl.push(Some(open));
            },
            MdEvent::HeadingEnd => {
                if in_heading {
                    let t = trim_chars(text.as_slice());
                    let title = if t.len() == 0 {
                        let mut s = String::from_str("Section ");
                        push_decimal(&mut s, count);
                        s
                    } else {
                        string_of(t.as_slice())
                    };
                    let mut id = String::from_str("heading-");
                    push_decimal(&mut id, count);
                    toc.push(TocEntry { id, title, level });
                    let mut close = String::from_str("</h");
                    push_decimal(&mut close, level as usize);
                    close.append(">");
                    repl.push(Some(close));
                    in_heading = false;
                } else {
                    repl.push(None);
                }
            },
            MdEvent::Text(t) | MdEvent::Code(t) => {
                if in_heading {
                    let tv = chars_of(t.as_str());
                    let mut k: usize = 0;
                    let ghost t0 = text@;
                    while k < tv.len()
                        invariant
                            k <= tv@.len(),
                            text@ == t0 + tv@.take(k as int),
                        decreases tv@.len() - k,
                    {
                        text.push(tv[k]);
                        k = k + 1;
                        assert(text@ =~= t0 + tv@.take(k as int));
                    }
                    assert(tv@.take(tv@.len() as int) =~= tv@);
                }
                repl.push(None);
            },
            MdEvent::Other => {
                repl.push(None);
            },
        }
        i = i + 1;
        assert(md_fold(events@.take(i as int)) =~= (
            toc_view(toc@),
            repl.deep_view(),
            count as nat,
            in_heading,
            level,
            text@,
        ));
    }
    assert(events@.take(events@.len() as int) =~= events@);
    (toc, repl)
}

/// Parse a Markdown text into reader HTML, TOC and title.
pub fn parse(raw: &str) -> (r: ParsedBook)
    ensures
        ({
            let st = md_fold(markdown_events(raw@));
            &&& r.html@ == "<article class=\"markdown-book\">"@ + markdown_rendered(raw@, st.1)
                + "</article>"@
            &&& toc_view(r.toc@) == st.0
            &&& r.title.deep_view() == first_h1(st.0)
            &&& r.author is None
            &&& r.cover is None
        }),
{
    let events = parse_events(raw);
    let (toc, repl) = toc_from_events(&events);
    let rendered = render_events(raw, &repl);
    let mut html = String::from_str("<article class=\"markdown-book\">");
    html.append(rendered.as_str());
    html.append("</article>");
    let title = first_level_one(&toc);
    ParsedBook { html, toc, title, author: None, cover: None }
}

fn first_level_one(toc: &Vec<TocEntry>) -> (r: Option<String>)
    ensures
        r.deep_view() == first_h1(toc_view(toc@)),
{
    let mut i: usize = 0;
    assert(toc_view(toc@).skip(0) =~= toc_view(toc@));
    while i < toc.len()
        invariant
            i <= toc@.len(),
            first_h1(toc_view(toc@)) == first_h1(toc_view(toc@).skip(i as int)),
        decreases toc@.len() - i,
    {
        assert(toc_view(toc@).skip(i as int)[0] == toc@[i as int]@);
        assert(toc_view(toc@).skip(i as int).skip(1) =~= toc_view(toc@).skip(i + 1));
        if toc[i].level == 1 {
            return Some(toc[i].title.clone());
        }
        i = i + 1;
    }
    None
}

} // verus!
