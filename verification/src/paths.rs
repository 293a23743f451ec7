//! `/`-separated repository paths: normalization and the name parts that
//! `std::path::Path` offers (`file_name`, `file_stem`, `extension`).
use vstd::prelude::*;

use crate::text::{
    chars_of, is_sep, last_sep, lemma_last_sep, lemma_split_nonempty, pieces_view, rfind_sep,
    slice_to_vec, split, split_chars, string_of, Separator,
};

verus! {

/// `p` with every backslash replaced by a slash.
pub open spec fn normalize_path(p: Seq<char>) -> Seq<char> {
    p.map_values(|c: char| if c == '\\' { '/' } else { c })
}

/// Normalizes a path to a `/`-separated string for use as a node id.
pub fn path_str(path: &str) -> (r: String)
    ensures
        r@ == normalize_path(path@),
{
    let cs = chars_of(path);
    let mut out: Vec<char> = Vec::new();
    let mut i: usize = 0;
    while i < cs.len()
        invariant
            cs@ == path@,
            i <= cs@.len(),
            out@ == normalize_path(cs@.take(i as int)),
        decreases cs@.len() - i,
    {
        let c = cs[i];
        out.push(if c == '\\' { '/' } else { c });
        i += 1;
        assert(out@ =~= normalize_path(cs@.take(i as int)));
    }
    assert(cs@.take(cs@.len() as int) == cs@);
    string_of(&out)
}

/// Parent directory of a `/`-separated path: everything before the last
/// `/`, or `.` when there is none.
pub open spec fn dir_of(p: Seq<char>) -> Seq<char> {
    match last_sep(p, Separator::Char('/')) {
        Some(i) => p.take(i),
        None => seq!['.'],
    }
}

/// Parent directory of a `/`-separated path, or `"."` for the root.
pub fn dir_of_str(path: &str) -> (r: String)
    ensures
        r@ == dir_of(path@),
{
    let cs = chars_of(path);
    match rfind_sep(&cs, Separator::Char('/')) {
        Some(i) => {
            proof {
                lemma_last_sep(cs@, Separator::Char('/'));
            }
            let v = slice_to_vec(&cs, 0, i);
            string_of(&v)
        },
        None => {
            let v = vec!['.'];
            string_of(&v)
        },
    }
}

/// Everything after the last `/` of `p` (all of `p` when there is none).
pub open spec fn after_last_slash(p: Seq<char>) -> Seq<char> {
    match last_sep(p, Separator::Char('/')) {
        Some(i) => p.skip(i + 1),
        None => p,
    }
}

/// Everything after the last `/` (`str::rsplit('/').next()`).
pub fn after_last_slash_str(path: &str) -> (r: String)
    ensures
        r@ == after_last_slash(path@),
{
    let cs = chars_of(path);
    match rfind_sep(&cs, Separator::Char('/')) {
        Some(i) => {
            proof {
                lemma_last_sep(cs@, Separator::Char('/'));
            }
            let v = slice_to_vec(&cs, i + 1, cs.len());
            assert(v@ == cs@.skip(i + 1));
            string_of(&v)
        },
        None => path.to_owned(),
    }
}

/// The last non-empty piece of `ps`, if any.
pub open spec fn last_nonempty(ps: Seq<Seq<char>>) -> Option<Seq<char>>
    decreases ps.len(),
{
    if ps.len() == 0 {
        None
    } else if ps.last().len() > 0 {
        Some(ps.last())
    } else {
        last_nonempty(ps.drop_last())
    }
}

/// Final segment of an import source, splitting on `/` and `:`; the source
/// itself when every segment is empty.
pub open spec fn last_segment(source: Seq<char>) -> Seq<char> {
    match last_nonempty(split(source, Separator::SlashOrColon)) {
        Some(s) => s,
        None => source,
    }
}

/// Final segment of an import source, splitting on `/` and `::`.
pub fn last_segment_str(source: &str) -> (r: String)
    ensures
        r@ == last_segment(source@),
{
    let cs = chars_of(source);
    let ps = split_chars(&cs, Separator::SlashOrColon);
    let mut k: usize = ps.len();
    assert(pieces_view(ps@).take(k as int) =~= pieces_view(ps@));
    while k > 0 && ps[k - 1].len() == 0
        invariant
            k <= ps@.len(),
            last_nonempty(pieces_view(ps@).take(k as int)) == last_nonempty(pieces_view(ps@)),
        decreases k,
    {
        assert(pieces_view(ps@).take(k as int).drop_last() == pieces_view(ps@).take(k - 1));
        k -= 1;
    }
    if k == 0 {
        assert(pieces_view(ps@).take(0).len() == 0);
        source.to_owned()
    } else {
        assert(pieces_view(ps@).take(k as int).last() == ps@[k - 1]@);
        string_of(&ps[k - 1])
    }
}

/// The last component of a split path: its last piece that is neither
/// empty nor `.`.
pub open spec fn last_component(ps: Seq<Seq<char>>) -> Option<Seq<char>>
    decreases ps.len(),
{
    if ps.len() == 0 {
        None
    } else if ps.last().len() == 0 || ps.last() == seq!['.'] {
        last_component(ps.drop_last())
    } else {
        Some(ps.last())
    }
}

/// The final component of a path, unless the path ends in `..`
/// (`Path::file_name`).
pub open spec fn file_name(p: Seq<char>) -> Option<Seq<char>> {
    match last_component(split(p, Separator::Char('/'))) {
        Some(c) => if c == seq!['.', '.'] {
            None
        } else {
            Some(c)
        },
        None => None,
    }
}

/// A file name without its extension: the part before the last `.`, unless
/// that `.` is the name's first character (`Path::file_stem`).
pub open spec fn stem_of(name: Seq<char>) -> Seq<char> {
    match last_sep(name, Separator::Char('.')) {
        Some(i) => if i == 0 {
            name
        } else {
            name.take(i)
        },
        None => name,
    }
}

/// The stem of a path's file name (`Path::file_stem`).
pub open spec fn file_stem(p: Seq<char>) -> Option<Seq<char>> {
    match file_name(p) {
        Some(n) => Some(stem_of(n)),
        None => None,
    }
}

/// The extension of a path's file name (`Path::extension`).
pub open spec fn extension(p: Seq<char>) -> Option<Seq<char>> {
    match file_name(p) {
        Some(n) => match last_sep(n, Separator::Char('.')) {
            Some(i) => if i == 0 {
                None
            } else {
                Some(n.skip(i + 1))
            },
            None => None,
        },
        None => None,
    }
}

/// Whether `cs` is exactly the characters `c` repeated `k` times, for
/// `k` in 1..=2 (the components `.` and `..`).
fn is_dots(cs: &[char], k: usize) -> (r: bool)
    requires
        1 <= k <= 2,
    ensures
        k == 1 ==> r == (cs@ == seq!['.']),
        k == 2 ==> r == (cs@ == seq!['.', '.']),
{
    if cs.len() != k {
        return false;
    }
    let r = cs[0] == '.' && (k == 1 || cs[1] == '.');
    proof {
        if r {
            if k == 1 {
                assert(cs@ =~= seq!['.']);
            } else {
                assert(cs@ =~= seq!['.', '.']);
            }
        }
    }
    r
}

/// The final component of a path, as characters (`Path::file_name`).
pub fn file_name_chars(path: &str) -> (r: Option<Vec<char>>)
    ensures
        r matches Some(v) ==> file_name(path@) == Some(v@),
        r is None ==> file_name(path@) is None,
{
    let cs = chars_of(path);
    let ps = split_chars(&cs, Separator::Char('/'));
    let mut k: usize = ps.len();
    assert(pieces_view(ps@).take(k as int) =~= pieces_view(ps@));
    while k > 0 && (ps[k - 1].len() == 0 || is_dots(&ps[k - 1], 1))
        invariant
            k <= ps@.len(),
            last_component(pieces_view(ps@).take(k as int)) == last_component(pieces_view(ps@)),
        decreases k,
    {
        assert(pieces_view(ps@).take(k as int).drop_last() == pieces_view(ps@).take(k - 1));
        assert(pieces_view(ps@).take(k as int).last() == ps@[k - 1]@);
        k -= 1;
    }
    if k == 0 {
        assert(pieces_view(ps@).take(0).len() == 0);
        None
    } else {
        assert(pieces_view(ps@).take(k as int).last() == ps@[k - 1]@);
        if is_dots(&ps[k - 1], 2) {
            None
        } else {
            Some(slice_to_vec(&ps[k - 1], 0, ps[k - 1].len()))
        }
    }
}

/// The final component of a path (`Path::file_name`).
pub fn file_name_str(path: &str) -> (r: Option<String>)
    ensures
        r matches Some(s) ==> file_name(path@) == Some(s@),
        r is None ==> file_name(path@) is None,
{
    match file_name_chars(path) {
        Some(v) => Some(string_of(&v)),
        None => None,
    }
}

/// The stem of a path's file name (`Path::file_stem`).
pub fn file_stem_str(path: &str) -> (r: Option<String>)
    ensures
        r matches Some(s) ==> file_stem(path@) == Some(s@),
        r is None ==> file_stem(path@) is None,
{
    match file_name_chars(path) {
        Some(n) => {
            proof {
                lemma_last_sep(n@, Separator::Char('.'));
            }
            match rfind_sep(&n, Separator::Char('.')) {
                Some(i) => if i == 0 {
                    Some(string_of(&n))
                } else {
                    let v = slice_to_vec(&n, 0, i);
                    Some(string_of(&v))
                },
                None => Some(string_of(&n)),
            }
        },
        None => None,
    }
}

/// The extension of a path's file name (`Path::extension`).
pub fn extension_str(path: &str) -> (r: Option<String>)
    ensures
        r matches Some(s) ==> extension(path@) == Some(s@),
        r is None ==> extension(path@) is None,
{
    match file_name_chars(path) {
        Some(n) => {
            proof {
                lemma_last_sep(n@, Separator::Char('.'));
            }
            match rfind_sep(&n, Separator::Char('.')) {
                Some(i) => if i == 0 {
                    None
                } else {
                    assert(last_sep(n@, Separator::Char('.')) == Some(i as int));
                    let nl = n.len();
                    assert(i < nl);
                    let v = slice_to_vec(&n, i + 1, nl);
                    assert(v@ == n@.skip(i + 1));
                    Some(string_of(&v))
                },
                None => None,
            }
        },
        None => None,
    }
}

} // verus!
