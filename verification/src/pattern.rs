//! Regular-expression matching (the `regex` crate) and byte-offset slicing of strings.
//!
//! A match is reported as byte spans into the searched text: entry 0 spans the
//! whole match, entry `k` the `k`-th capture group (`None` when it took no part).
use vstd::prelude::*;
use vstd::utf8::{
    decode_utf8, encode_utf8, encode_utf8_decode_utf8, encode_utf8_valid_utf8, is_char_boundary,
    is_char_boundary_start_end_of_seq,
};

verus! {

/// Spans of one match.
pub type Spans = Seq<Option<(usize, usize)>>;

/// What `Regex::new(pattern)` and then `captures_iter(text)` report: `None` when
/// the pattern does not compile, else the spans of each successive match.
pub uninterp spec fn regex_spans(pattern: Seq<char>, text: Seq<char>) -> Option<Seq<Spans>>;

/// A byte span of `text` that starts and ends on character boundaries.
pub open spec fn span_ok(text: Seq<char>, sp: (usize, usize)) -> bool {
    let b = encode_utf8(text);
    &&& sp.0 <= sp.1 <= b.len()
    &&& is_char_boundary(b, sp.0 as int)
    &&& is_char_boundary(b, sp.1 as int)
}

/// The characters that the byte span `[a, b)` of `text` holds.
pub open spec fn byte_slice(text: Seq<char>, a: int, b: int) -> Seq<char> {
    decode_utf8(encode_utf8(text).subrange(a, b))
}

/// Start and end of the whole match.
pub open spec fn whole(c: Spans) -> (usize, usize) {
    c[0]->0
}

/// The facts that the `regex` crate documents about `captures_iter`: every
/// match and group lies on character boundaries of the text, and successive
/// matches do not overlap.
pub open spec fn spans_ok(text: Seq<char>, ms: Seq<Spans>) -> bool {
    &&& forall|i: int|
        0 <= i < ms.len() ==> #[trigger] ms[i].len() >= 1 && ms[i][0] is Some && span_ok(
            text,
            ms[i][0]->0,
        )
    &&& forall|i: int, k: int|
        0 <= i < ms.len() && 0 <= k < ms[i].len() && (#[trigger] ms[i][k]) is Some ==> span_ok(
            text,
            ms[i][k]->0,
        )
    &&& forall|i: int, j: int|
        0 <= i < j < ms.len() ==> whole(#[trigger] ms[i]).1 <= whole(#[trigger] ms[j]).0
}

pub open spec fn spans_view(v: Seq<Vec<Option<(usize, usize)>>>) -> Seq<Spans> {
    v.map_values(|c: Vec<Option<(usize, usize)>>| c@)
}

/// `regex::Regex::new(pattern)`, then `captures_iter(text)` with each group
/// turned into its `(start, end)` byte offsets.  The result is named by
/// `regex_spans`; the crate's documentation gives `spans_ok` of it.
#[verifier::external_body]
pub(crate) fn regex_captures(pattern: &str, text: &str) -> (r: Option<Vec<Vec<Option<(usize, usize)>>>>)
    ensures
        r is Some <==> regex_spans(pattern@, text@) is Some,
        r matches Some(v) ==> spans_view(v@) == regex_spans(pattern@, text@)->0 && spans_ok(
            text@,
            spans_view(v@),
        ),
{
    let re = regex::Regex::new(pattern).ok()?;
    Some(re.captures_iter(text).map(|c| c.iter().map(|g| g.map(|m| (m.start(), m.end()))).collect()).collect())
}

/// `&s[start..end]` (std string slicing by byte offsets).
#[verifier::external_body]
pub(crate) fn slice_str(s: &str, start: usize, end: usize) -> (r: &str)
    requires
        span_ok(s@, (start, end)),
    ensures
        r@ == byte_slice(s@, start as int, end as int),
{
    &s[start..end]
}

/// The text of group `k` of a match, if it took part.
pub open spec fn group_text(text: Seq<char>, c: Spans, k: int) -> Option<Seq<char>> {
    if 0 <= k < c.len() && c[k] is Some {
        let sp = c[k]->0;
        Some(byte_slice(text, sp.0 as int, sp.1 as int))
    } else {
        None
    }
}

/// The text of group `k` of match `i` (`Captures::get(k)`).
pub fn group<'a>(text: &'a str, ms: &Vec<Vec<Option<(usize, usize)>>>, i: usize, k: usize) -> (r:
    Option<&'a str>)
    requires
        i < ms@.len(),
        spans_ok(text@, spans_view(ms@)),
    ensures
        r matches Some(s) ==> group_text(text@, ms@[i as int]@, k as int) == Some(s@),
        r is None ==> group_text(text@, ms@[i as int]@, k as int) is None,
{
    let c = &ms[i];
    assert(spans_view(ms@)[i as int] == c@);
    if k < c.len() {
        match c[k] {
            Some((a, b)) => {
                assert(spans_view(ms@)[i as int][k as int] is Some);
                Some(slice_str(text, a, b))
            },
            None => None,
        }
    } else {
        None
    }
}

/// The whole text is the slice from its first to its last byte.
pub proof fn lemma_byte_slice_all(text: Seq<char>)
    ensures
        byte_slice(text, 0, encode_utf8(text).len() as int) == text,
{
    let b = encode_utf8(text);
    assert(b.subrange(0, b.len() as int) =~= b);
    encode_utf8_decode_utf8(text);
}


/// Text written after the first `n` matches have been replaced by `reps`, and
/// the byte offset where copying resumes.
pub open spec fn replace_state(text: Seq<char>, ms: Seq<Spans>, reps: Seq<Seq<char>>, n: int) -> (
    Seq<char>,
    int,
)
    decreases n,
{
    if n <= 0 {
        (Seq::empty(), 0)
    } else {
        let st = replace_state(text, ms, reps, n - 1);
        let w = whole(ms[n - 1]);
        (st.0 + byte_slice(text, st.1, w.0 as int) + reps[n - 1], w.1 as int)
    }
}

/// `Regex::replace_all`: every match replaced by its entry of `reps`.
pub open spec fn replaced_all(text: Seq<char>, ms: Seq<Spans>, reps: Seq<Seq<char>>) -> Seq<char> {
    let st = replace_state(text, ms, reps, ms.len() as int);
    st.0 + byte_slice(text, st.1, encode_utf8(text).len() as int)
}

/// Replaces match `i` of `ms` by `reps[i]`.
pub fn replace_matches(text: &str, ms: &Vec<Vec<Option<(usize, usize)>>>, reps: &Vec<String>) -> (r:
    String)
    requires
        spans_ok(text@, spans_view(ms@)),
        reps@.len() == ms@.len(),
    ensures
        r@ == replaced_all(text@, spans_view(ms@), reps@.map_values(|s: String| s@)),
{
    let ghost m = spans_view(ms@);
    let ghost rv = reps@.map_values(|s: String| s@);
    let ghost bytes = encode_utf8(text@);
    let mut out = String::new();
    let mut last: usize = 0;
    let mut i: usize = 0;
    proof {
        encode_utf8_valid_utf8(text@);
        is_char_boundary_start_end_of_seq(bytes);
    }
    while i < ms.len()
        invariant
            i <= ms@.len(),
            reps@.len() == ms@.len(),
            m == spans_view(ms@),
            rv == reps@.map_values(|s: String| s@),
            bytes == encode_utf8(text@),
            spans_ok(text@, m),
            replace_state(text@, m, rv, i as int) == (out@, last as int),
            last <= bytes.len(),
            is_char_boundary(bytes, last as int),
            forall|k: int| i <= k < m.len() ==> last <= (#[trigger] whole(m[k])).0,
        decreases ms@.len() - i,
    {
        assert(m[i as int] == ms@[i as int]@);
        let sp = ms[i][0].unwrap();
        assert(sp == whole(m[i as int]));
        let gap = slice_str(text, last, sp.0);
        out.append(gap);
        out.append(reps[i].as_str());
        last = sp.1;
        i = i + 1;
        assert(replace_state(text@, m, rv, i as int) =~= (out@, last as int));
    }
    proof {
        encode_utf8_valid_utf8(text@);
        is_char_boundary_start_end_of_seq(bytes);
    }
    let n = text.as_bytes().len();
    let tail = slice_str(text, last, n);
    out.append(tail);
    out
}

/// The group text, or nothing when the group did not take part.
pub open spec fn group_or_empty(text: Seq<char>, c: Spans, k: int) -> Seq<char> {
    match group_text(text, c, k) {
        Some(t) => t,
        None => Seq::empty(),
    }
}

pub fn group_or_empty_str<'a>(text: &'a str, ms: &Vec<Vec<Option<(usize, usize)>>>, i: usize, k: usize) -> (r:
    &'a str)
    requires
        i < ms@.len(),
        spans_ok(text@, spans_view(ms@)),
    ensures
        r@ == group_or_empty(text@, ms@[i as int]@, k as int),
{
    match group(text, ms, i, k) {
        Some(t) => t,
        None => {
            let e = "";
            proof {
                reveal_strlit("");
            }
            assert(e@ =~= Seq::<char>::empty());
            e
        },
    }
}

} // verus!
