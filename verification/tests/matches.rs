use e_reader::download::links_from_matches;
use e_reader::html_util::headings_from_matches;
use e_reader::markdown::{toc_from_events, MdEvent};

#[test]
fn headings_of_given_matches() {
    let html = "<h2 id=\"x\">A <b>b</b></h2><h1></h1>";
    let ms = vec![
        vec![Some((0, 26)), Some((2, 3)), Some((3, 10)), Some((11, 21))],
        vec![Some((26, 35)), Some((28, 29)), Some((29, 29)), Some((30, 30))],
    ];
    let hs = headings_from_matches(html, &ms);
    assert_eq!(hs.len(), 1);
    assert_eq!(hs[0].level, 2);
    assert_eq!(hs[0].text, "A b");
    assert_eq!(hs[0].id.as_deref(), Some("x"));
}

#[test]
fn links_of_given_matches() {
    let html = "href=\"a.epub\" href=\"#x\" href=\"a.epub\" href=\"/get/download\"";
    let ms = vec![
        vec![Some((0, 13)), Some((6, 12))],
        vec![Some((14, 23)), Some((20, 22))],
        vec![Some((24, 37)), Some((30, 36))],
        vec![Some((38, 58)), Some((44, 57))],
    ];
    let links = links_from_matches(html, &ms, "https://h.org/dir/p");
    assert_eq!(
        links,
        vec!["https://h.org/dir/a.epub".to_string(), "https://h.org/get/download".to_string()]
    );
}

#[test]
fn toc_of_given_events() {
    let events = vec![
        MdEvent::HeadingStart(2),
        MdEvent::Text(" Intro ".to_string()),
        MdEvent::Code("x".to_string()),
        MdEvent::HeadingEnd,
        MdEvent::Other,
        MdEvent::Text("body".to_string()),
        MdEvent::HeadingStart(1),
        MdEvent::HeadingEnd,
    ];
    let (toc, repl) = toc_from_events(&events);
    assert_eq!(toc.len(), 2);
    assert_eq!((toc[0].id.as_str(), toc[0].title.as_str(), toc[0].level), ("heading-1", "Intro x", 2));
    assert_eq!((toc[1].id.as_str(), toc[1].title.as_str(), toc[1].level), ("heading-2", "Section 2", 1));
    assert_eq!(
        repl,
        vec![
            Some("<h2 id=\"heading-1\">".to_string()),
            None,
            None,
            Some("</h2>".to_string()),
            None,
            None,
            Some("<h1 id=\"heading-2\">".to_string()),
            Some("</h1>".to_string()),
        ]
    );
}
