//! File-name parts of `/`-separated paths, as `std::path::Path` reads them:
//! the file name is the last component that is neither empty nor `.`; the
//! extension follows its last `.` unless that dot starts the name.
use crate::text::{chars_of, string_of_range};
use vstd::prelude::*;

verus! {

/// Index of the last `/` before `end`, or -1.
pub open spec fn last_slash(p: Seq<char>, end: int) -> int
    decreases end,
{
    if end <= 0 {
        -1
    } else if p[end - 1] == '/' {
        end - 1
    } else {
        last_slash(p, end - 1)
    }
}

pub proof fn lemma_last_slash_below(p: Seq<char>, end: int)
    requires
        0 <= end,
    ensures
        -1 <= last_slash(p, end) < end,
    decreases end,
{
    if end > 0 && p[end - 1] != '/' {
        lemma_last_slash_below(p, end - 1);
    }
}

pub proof fn lemma_last_slash(p: Seq<char>, end: int)
    requires
        0 <= end <= p.len(),
    ensures
        -1 <= last_slash(p, end) < end,
        last_slash(p, end) >= 0 ==> p[last_slash(p, end)] == '/',
        forall|j: int| last_slash(p, end) < j < end ==> p[j] != '/',
    decreases end,
{
    if end > 0 && p[end - 1] != '/' {
        lemma_last_slash(p, end - 1);
    }
}

/// Bounds of the file name within `p[..end]`.
pub open spec fn file_name_in(p: Seq<char>, end: int) -> Option<(int, int)>
    decreases end,
{
    if end <= 0 {
        None
    } else {
        let k = last_slash(p, end);
        proof {
            lemma_last_slash_below(p, end);
        }
        let seg = p.subrange(k + 1, end);
        if seg.len() > 0 && seg != "."@ {
            if seg == ".."@ {
                None
            } else {
                Some((k + 1, end))
            }
        } else if k < 0 {
            None
        } else {
            file_name_in(p, k)
        }
    }
}

/// `Path::file_name`.
pub open spec fn file_name(p: Seq<char>) -> Option<Seq<char>> {
    match file_name_in(p, p.len() as int) {
        Some(b) => Some(p.subrange(b.0, b.1)),
        None => None,
    }
}

/// Index of the last `.` in `s`, or -1.
pub open spec fn last_dot(s: Seq<char>, end: int) -> int
    decreases end,
{
    if end <= 0 {
        -1
    } else if s[end - 1] == '.' {
        end - 1
    } else {
        last_dot(s, end - 1)
    }
}

/// `Path::extension`.
pub open spec fn extension(p: Seq<char>) -> Option<Seq<char>> {
    match file_name(p) {
        None => None,
        Some(n) => {
            let d = last_dot(n, n.len() as int);
            if n == ".."@ || d <= 0 {
                None
            } else {
                Some(n.skip(d + 1))
            }
        },
    }
}

/// `Path::file_stem`.
pub open spec fn file_stem(p: Seq<char>) -> Option<Seq<char>> {
    match file_name(p) {
        None => None,
        Some(n) => {
            let d = last_dot(n, n.len() as int);
            if n == ".."@ || d <= 0 {
                Some(n)
            } else {
                Some(n.take(d))
            }
        },
    }
}

fn last_slash_exec(p: &[char], end: usize) -> (r: Option<usize>)
    requires
        end <= p@.len(),
    ensures
        r matches Some(k) ==> last_slash(p@, end as int) == k,
        r is None ==> last_slash(p@, end as int) == -1,
    decreases end,
{
    if end == 0 {
        None
    } else if p[end - 1] == '/' {
        Some(end - 1)
    } else {
        last_slash_exec(p, end - 1)
    }
}

fn last_dot_exec(p: &[char], from: usize, end: usize) -> (r: Option<usize>)
    requires
        from <= end <= p@.len(),
    ensures
        r matches Some(k) ==> from <= k < end && last_dot(p@.subrange(from as int, end as int), (end - from) as int) == k - from,
        r is None ==> last_dot(p@.subrange(from as int, end as int), (end - from) as int) == -1,
    decreases end - from,
{
    let ghost n = p@.subrange(from as int, end as int);
    if end == from {
        None
    } else if p[end - 1] == '.' {
        assert(n[(end - from) - 1] == p@[end - 1]);
        Some(end - 1)
    } else {
        assert(n[(end - from) - 1] == p@[end - 1]);
        let r = last_dot_exec(p, from, end - 1);
        proof {
            lemma_last_dot_prefix(n, p@.subrange(from as int, end - 1), (end - 1 - from) as int);
        }
        r
    }
}

/// `last_dot` only looks at the first `end` characters.
proof fn lemma_last_dot_prefix(a: Seq<char>, b: Seq<char>, end: int)
    requires
        0 <= end <= a.len(),
        end <= b.len(),
        forall|j: int| 0 <= j < end ==> a[j] == b[j],
    ensures
        last_dot(a, end) == last_dot(b, end),
    decreases end,
{
    if end > 0 {
        lemma_last_dot_prefix(a, b, end - 1);
    }
}

fn file_name_in_exec(p: &[char], end: usize) -> (r: Option<(usize, usize)>)
    requires
        end <= p@.len(),
    ensures
        r matches Some(b) ==> file_name_in(p@, end as int) == Some((b.0 as int, b.1 as int))
            && b.0 <= b.1 <= p@.len(),
        r is None ==> file_name_in(p@, end as int) is None,
    decreases end,
{
    if end == 0 {
        return None;
    }
    let k = last_slash_exec(p, end);
    proof {
        lemma_last_slash(p@, end as int);
    }
    let start: usize = match k {
        Some(k) => k + 1,
        None => 0,
    };
    let seg_len = end - start;
    let ghost seg = p@.subrange(start as int, end as int);
    proof {
        reveal_strlit(".");
        reveal_strlit("..");
    }
    let is_dot = seg_len == 1 && p[start] == '.';
    let is_dotdot = seg_len == 2 && p[start] == '.' && p[start + 1] == '.';
    assert(is_dot == (seg == "."@)) by {
        if seg_len == 1 && p@[start as int] == '.' {
            assert(seg =~= "."@);
        }
        if seg == "."@ {
            assert(seg[0] == '.');
        }
    }
    assert(is_dotdot == (seg == ".."@)) by {
        if seg_len == 2 && p@[start as int] == '.' && p@[start + 1] == '.' {
            assert(seg =~= ".."@);
        }
        if seg == ".."@ {
            assert(seg[0] == '.' && seg[1] == '.');
        }
    }
    if seg_len > 0 && !is_dot {
        if is_dotdot {
            None
        } else {
            Some((start, end))
        }
    } else {
        match k {
            None => None,
            Some(k) => file_name_in_exec(p, k),
        }
    }
}

/// Bounds `(a, m, b)` of the file name `p[a..b]` of `p`, with stem `p[a..m]`;
/// the extension is `p[m + 1..b]` when `m < b`.
fn name_parts(p: &[char]) -> (r: Option<(usize, usize, usize)>)
    ensures
        r is None ==> file_name(p@) is None && file_stem(p@) is None && extension(p@) is None,
        r matches Some(t) ==> t.0 <= t.1 <= t.2 <= p@.len() && file_stem(p@) == Some(
            p@.subrange(t.0 as int, t.1 as int),
        ) && (if t.1 < t.2 {
            extension(p@) == Some(p@.subrange(t.1 + 1, t.2 as int))
        } else {
            extension(p@) is None
        }),
{
    let (a, b) = match file_name_in_exec(p, p.len()) {
        Some(x) => x,
        None => return None,
    };
    let ghost n = p@.subrange(a as int, b as int);
    proof {
        lemma_file_name_end(p@, p@.len() as int);
        reveal_strlit("..");
    }
    let is_dotdot = b - a == 2 && p[a] == '.' && p[a + 1] == '.';
    assert(is_dotdot == (n == ".."@)) by {
        if b - a == 2 && p@[a as int] == '.' && p@[a + 1] == '.' {
            assert(n =~= ".."@);
        }
        if n == ".."@ {
            assert(n[0] == '.' && n[1] == '.');
        }
    }
    let d = last_dot_exec(p, a, b);
    match d {
        Some(d) if !is_dotdot && d > a => {
            assert(n.take(d - a) =~= p@.subrange(a as int, d as int));
            assert(n.skip(d - a + 1) =~= p@.subrange(d + 1, b as int));
            Some((a, d, b))
        },
        _ => Some((a, b, b)),
    }
}

/// A file name, when there is one, ends the path (up to trailing `/` and `.` parts).
proof fn lemma_file_name_end(p: Seq<char>, end: int)
    requires
        0 <= end <= p.len(),
    ensures
        file_name_in(p, end) matches Some(b) ==> 0 <= b.0 <= b.1 <= end,
    decreases end,
{
    if end > 0 {
        lemma_last_slash(p, end);
        let k = last_slash(p, end);
        if k >= 0 {
            lemma_file_name_end(p, k);
        }
    }
}

/// `Path::extension`, as a string.
pub fn path_extension(path: &str) -> (r: Option<String>)
    ensures
        r.deep_view() == extension(path@),
{
    let p = chars_of(path);
    match name_parts(p.as_slice()) {
        None => None,
        Some((_, m, b)) => if m < b {
            Some(string_of_range(p.as_slice(), m + 1, b))
        } else {
            None
        },
    }
}

/// `Path::file_stem`, as a string.
pub fn path_file_stem(path: &str) -> (r: Option<String>)
    ensures
        r.deep_view() == file_stem(path@),
{
    let p = chars_of(path);
    match name_parts(p.as_slice()) {
        None => None,
        Some((a, b, _)) => Some(string_of_range(p.as_slice(), a, b)),
    }
}

/// A path with `\` read as a separator too, as Windows reads paths: each `\`
/// written as `/`.
pub open spec fn sep_path(p: Seq<char>, backslash_separates: bool) -> Seq<char> {
    if backslash_separates {
        p.map_values(|c: char| if c == '\\' { '/' } else { c })
    } else {
        p
    }
}

pub fn separated_path(path: &str, backslash_separates: bool) -> (r: String)
    ensures
        r@ == sep_path(path@, backslash_separates),
{
    if !backslash_separates {
        return path.to_string();
    }
    let p = chars_of(path);
    let mut v: Vec<char> = Vec::new();
    let mut i: usize = 0;
    while i < p.len()
        invariant
            i <= p@.len(),
            p@ == path@,
            v@ == path@.take(i as int).map_values(|c: char| if c == '\\' { '/' } else { c }),
        decreases p@.len() - i,
    {
        let c = if p[i] == '\\' {
            '/'
        } else {
            p[i]
        };
        v.push(c);
        i = i + 1;
        assert(v@ =~= path@.take(i as int).map_values(|c: char| if c == '\\' { '/' } else { c }));
    }
    assert(path@.take(path@.len() as int) =~= path@);
    crate::text::string_of(v.as_slice())
}

} // verus!
