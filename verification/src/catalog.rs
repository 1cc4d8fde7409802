//! Catalog rules: paths compared as keys, which books a rescan drops, and how a
//! stored format name reads back.
//!
//! The catalog itself lives in SQLite; the functions here decide on the rows
//! that the caller reads and hands over.
use crate::epub::{pairs_view, strings_view};
use crate::models::BookFormat;
use crate::text::{ascii_lower, chars_of, chars_eq, has_prefix, lower_chars, starts_with, str_eq, string_of};
use vstd::prelude::*;

verus! {

// ---------------------------------------------------------------------------
// Path keys
// ---------------------------------------------------------------------------

pub open spec fn backslashed(c: char) -> char {
    if c == '/' {
        '\\'
    } else {
        c
    }
}

/// Trailing backslashes removed while more than one character is left.
pub open spec fn drop_trailing_backslashes(s: Seq<char>) -> Seq<char>
    decreases s.len(),
{
    if s.len() > 1 && s.last() == '\\' {
        drop_trailing_backslashes(s.drop_last())
    } else {
        s
    }
}

/// The key a path is compared by: `/` written as `\`, trailing separators
/// dropped, and, where the file system ignores case, ASCII lower-cased.
pub open spec fn path_key(path: Seq<char>, fold_case: bool) -> Seq<char> {
    let s = drop_trailing_backslashes(path.map_values(|c: char| backslashed(c)));
    if fold_case {
        ascii_lower(s)
    } else {
        s
    }
}

fn path_key_chars(path: &str, fold_case: bool) -> (r: Vec<char>)
    ensures
        r@ == path_key(path@, fold_case),
{
    let p = chars_of(path);
    let mut v: Vec<char> = Vec::new();
    let mut i: usize = 0;
    while i < p.len()
        invariant
            i <= p@.len(),
            p@ == path@,
            v@ == path@.take(i as int).map_values(|c: char| backslashed(c)),
        decreases p@.len() - i,
    {
        let c = if p[i] == '/' {
            '\\'
        } else {
            p[i]
        };
        v.push(c);
        i = i + 1;
        assert(v@ =~= path@.take(i as int).map_values(|c: char| backslashed(c)));
    }
    assert(path@.take(path@.len() as int) =~= path@);
    let ghost s = v@;
    let mut j: usize = v.len();
    assert(s.take(j as int) =~= s);
    while j > 1 && v[j - 1] == '\\'
        invariant
            j <= v@.len(),
            s == v@,
            drop_trailing_backslashes(s) == drop_trailing_backslashes(s.take(j as int)),
        decreases j,
    {
        assert(s.take(j as int).last() == s[j - 1]);
        assert(s.take(j as int).drop_last() =~= s.take(j - 1));
        j = j - 1;
    }
    if j > 1 {
        assert(s.take(j as int).last() == s[j - 1]);
    }
    let mut k: Vec<char> = Vec::new();
    let mut m: usize = 0;
    while m < j
        invariant
            m <= j <= s.len(),
            s == v@,
            k@ == s.take(m as int),
        decreases j - m,
    {
        k.push(v[m]);
        m = m + 1;
        assert(k@ =~= s.take(m as int));
    }
    if fold_case {
        lower_chars(k.as_slice())
    } else {
        k
    }
}

pub fn normalize_path_key(path: &str, fold_case: bool) -> (r: String)
    ensures
        r@ == path_key(path@, fold_case),
{
    string_of(path_key_chars(path, fold_case).as_slice())
}

/// A path key equal to a root key, or below it.
pub open spec fn key_under(key: Seq<char>, root: Seq<char>) -> bool {
    key == root || has_prefix(key, root + seq!['/']) || has_prefix(key, root + seq!['\\'])
}

/// The path lies in or below one of the roots.
pub open spec fn under_any_root(path: Seq<char>, roots: Seq<Seq<char>>, fold_case: bool) -> bool {
    exists|i: int|
        0 <= i < roots.len() && key_under(path_key(path, fold_case), path_key(#[trigger] roots[i], fold_case))
}

fn with_sep(v: &Vec<char>, c: char) -> (r: Vec<char>)
    ensures
        r@ == v@ + seq![c],
{
    let mut r = v.clone();
    assert(r@ == v@);
    r.push(c);
    assert(r@ =~= v@ + seq![c]);
    r
}

pub fn path_is_under_any_root(path: &str, roots: &Vec<String>, fold_case: bool) -> (r: bool)
    ensures
        r == under_any_root(path@, strings_view(roots@), fold_case),
{
    let ghost rv = strings_view(roots@);
    let key = path_key_chars(path, fold_case);
    let mut i: usize = 0;
    while i < roots.len()
        invariant
            i <= roots@.len(),
            rv == strings_view(roots@),
            key@ == path_key(path@, fold_case),
            forall|j: int| 0 <= j < i ==> !key_under(key@, path_key(#[trigger] rv[j], fold_case)),
        decreases roots@.len() - i,
    {
        let rk = path_key_chars(roots[i].as_str(), fold_case);
        assert(rk@ == path_key(rv[i as int], fold_case));
        let slash = with_sep(&rk, '/');
        let back = with_sep(&rk, '\\');
        if chars_eq(key.as_slice(), rk.as_slice()) || starts_with(key.as_slice(), slash.as_slice())
            || starts_with(key.as_slice(), back.as_slice()) {
            return true;
        }
        i = i + 1;
    }
    false
}

/// A library root's own path counts as lying under it.
pub proof fn lemma_root_under_itself(root: Seq<char>, roots: Seq<Seq<char>>, fold_case: bool)
    requires
        roots.contains(root),
    ensures
        under_any_root(root, roots, fold_case),
{
    let i = choose|i: int| 0 <= i < roots.len() && roots[i] == root;
    assert(key_under(path_key(root, fold_case), path_key(roots[i], fold_case)));
}

// ---------------------------------------------------------------------------
// Rescans
// ---------------------------------------------------------------------------

/// A catalog path that lies under a library root but was not found on disk.
pub open spec fn removable(
    path: Seq<char>,
    existing: Seq<Seq<char>>,
    roots: Seq<Seq<char>>,
    fold_case: bool,
) -> bool {
    under_any_root(path, roots, fold_case) && !existing.contains(path)
}

/// The ids of the `(id, path)` catalog rows that a rescan drops, in order.
pub open spec fn missing_root_books(
    catalog: Seq<(Seq<char>, Seq<char>)>,
    existing: Seq<Seq<char>>,
    roots: Seq<Seq<char>>,
    fold_case: bool,
) -> Seq<Seq<char>>
    decreases catalog.len(),
{
    if catalog.len() == 0 {
        Seq::empty()
    } else {
        let rest = missing_root_books(catalog.drop_last(), existing, roots, fold_case);
        if removable(catalog.last().1, existing, roots, fold_case) {
            rest.push(catalog.last().0)
        } else {
            rest
        }
    }
}

fn contains_str(v: &Vec<String>, s: &str) -> (r: bool)
    ensures
        r == strings_view(v@).contains(s@),
{
    let ghost sv = strings_view(v@);
    let mut i: usize = 0;
    while i < v.len()
        invariant
            i <= v@.len(),
            sv == strings_view(v@),
            forall|j: int| 0 <= j < i ==> sv[j] != s@,
        decreases v@.len() - i,
    {
        if str_eq(v[i].as_str(), s) {
            assert(sv[i as int] == s@);
            return true;
        }
        i = i + 1;
    }
    false
}

/// The ids of catalog rows `(id, path)` whose file lay under a library root and
/// is not among the paths found by the scan.  Books outside every root
/// (imported or downloaded ones) are kept.
pub fn books_to_remove(
    catalog: &Vec<(String, String)>,
    existing_paths: &Vec<String>,
    root_paths: &Vec<String>,
    fold_case: bool,
) -> (r: Vec<String>)
    ensures
        strings_view(r@) == missing_root_books(
            pairs_view(catalog@),
            strings_view(existing_paths@),
            strings_view(root_paths@),
            fold_case,
        ),
{
    let ghost cat = pairs_view(catalog@);
    let ghost ex = strings_view(existing_paths@);
    let ghost rs = strings_view(root_paths@);
    let mut out: Vec<String> = Vec::new();
    if root_paths.len() == 0 {
        proof {
            lemma_no_roots_keeps_all(cat, ex, rs, fold_case);
        }
        assert(strings_view(out@) =~= Seq::<Seq<char>>::empty());
        return out;
    }
    let mut i: usize = 0;
    assert(strings_view(out@) =~= Seq::<Seq<char>>::empty());
    assert(cat.take(0) =~= Seq::<(Seq<char>, Seq<char>)>::empty());
    while i < catalog.len()
        invariant
            i <= catalog@.len(),
            cat == pairs_view(catalog@),
            ex == strings_view(existing_paths@),
            rs == strings_view(root_paths@),
            strings_view(out@) == missing_root_books(cat.take(i as int), ex, rs, fold_case),
        decreases catalog@.len() - i,
    {
        let (id, path) = &catalog[i];
        assert(cat[i as int] == (id@, path@));
        assert(cat.take(i + 1).drop_last() =~= cat.take(i as int));
        assert(cat.take(i + 1).last() == cat[i as int]);
        if path_is_under_any_root(path.as_str(), root_paths, fold_case) && !contains_str(
            existing_paths,
            path.as_str(),
        ) {
            let ghost before = out@;
            out.push(id.clone());
            assert(strings_view(out@) =~= strings_view(before).push(id@));
        }
        i = i + 1;
    }
    assert(cat.take(catalog@.len() as int) =~= cat);
    out
}

/// With no library roots a rescan drops nothing.
pub proof fn lemma_no_roots_keeps_all(
    catalog: Seq<(Seq<char>, Seq<char>)>,
    existing: Seq<Seq<char>>,
    roots: Seq<Seq<char>>,
    fold_case: bool,
)
    requires
        roots.len() == 0,
    ensures
        missing_root_books(catalog, existing, roots, fold_case).len() == 0,
    decreases catalog.len(),
{
    if catalog.len() > 0 {
        lemma_no_roots_keeps_all(catalog.drop_last(), existing, roots, fold_case);
    }
}

/// `id` is the id of a row whose file lay under a library root and was not found.
pub open spec fn is_missing_row(
    catalog: Seq<(Seq<char>, Seq<char>)>,
    existing: Seq<Seq<char>>,
    roots: Seq<Seq<char>>,
    fold_case: bool,
    id: Seq<char>,
) -> bool {
    exists|j: int|
        0 <= j < catalog.len() && (#[trigger] catalog[j]).0 == id && removable(
            catalog[j].1,
            existing,
            roots,
            fold_case,
        )
}

/// A rescan drops exactly the rows whose file lay under a library root and was
/// not found: every dropped id belongs to such a row, and every such row's id
/// is dropped.  In particular a book outside every root is never dropped.
pub proof fn lemma_rescan_drops_exactly_missing(
    catalog: Seq<(Seq<char>, Seq<char>)>,
    existing: Seq<Seq<char>>,
    roots: Seq<Seq<char>>,
    fold_case: bool,
)
    ensures
        forall|k: int|
            0 <= k < missing_root_books(catalog, existing, roots, fold_case).len()
                ==> is_missing_row(
                catalog,
                existing,
                roots,
                fold_case,
                #[trigger] missing_root_books(catalog, existing, roots, fold_case)[k],
            ),
        forall|j: int|
            0 <= j < catalog.len() && removable((#[trigger] catalog[j]).1, existing, roots, fold_case)
                ==> missing_root_books(catalog, existing, roots, fold_case).contains(catalog[j].0),
    decreases catalog.len(),
{
    if catalog.len() > 0 {
        let init = catalog.drop_last();
        lemma_rescan_drops_exactly_missing(init, existing, roots, fold_case);
        let rest = missing_root_books(init, existing, roots, fold_case);
        let all = missing_root_books(catalog, existing, roots, fold_case);
        assert forall|k: int| 0 <= k < all.len() implies is_missing_row(
            catalog,
            existing,
            roots,
            fold_case,
            #[trigger] all[k],
        ) by {
            if k < rest.len() {
                assert(is_missing_row(init, existing, roots, fold_case, rest[k]));
                let j = choose|j: int|
                    0 <= j < init.len() && (#[trigger] init[j]).0 == rest[k] && removable(
                        init[j].1,
                        existing,
                        roots,
                        fold_case,
                    );
                assert(catalog[j] == init[j]);
                assert(all[k] == rest[k]);
            } else {
                assert(catalog[catalog.len() - 1] == catalog.last());
            }
        }
        assert forall|j: int|
            0 <= j < catalog.len() && removable(
                (#[trigger] catalog[j]).1,
                existing,
                roots,
                fold_case,
            ) implies all.contains(catalog[j].0) by {
            if j < catalog.len() - 1 {
                assert(catalog[j] == init[j]);
                assert(rest.contains(catalog[j].0));
                let k = choose|k: int| 0 <= k < rest.len() && rest[k] == catalog[j].0;
                assert(all[k] == rest[k]);
            } else {
                assert(catalog[j] == catalog.last());
                assert(all[all.len() - 1] == catalog[j].0);
            }
        }
    }
}

// ---------------------------------------------------------------------------
// Stored values
// ---------------------------------------------------------------------------

/// A stored format name, read back; an unknown name reads as plain text.
pub open spec fn stored_format_of(value: Seq<char>) -> BookFormat {
    match BookFormat::named(value) {
        Some(f) => f,
        None => BookFormat::Txt,
    }
}

pub fn stored_format(value: &str) -> (r: BookFormat)
    ensures
        r == stored_format_of(value@),
{
    match BookFormat::parse(value) {
        Some(f) => f,
        None => BookFormat::Txt,
    }
}

} // verus!
