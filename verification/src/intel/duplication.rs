//! Duplicated code: identical blocks of normalized lines across files.
use vstd::prelude::*;

use crate::entities::intel::{GroupView, LocationView};
use crate::entities::{DuplicationGroup, DuplicationLocation};
use crate::order::{
    is_sorted, lemma_seq_lt_total, lemma_seq_lt_trans, lemma_sort_contains, lemma_sort_sorted,
    order_total, order_transitive, seq_le, seq_lt, sort_by_key, sort_seq, views, Comparison,
    SortKey, SpecOrder,
};
use crate::text::{
    chars_of, drop_empty, is_sep, join, join_chars, lines, lines_of, non_empty, pieces_view, split,
    split_chars, string_of, whitespace, Separator,
};

verus! {

/// Minimum block size (normalized lines) for duplication detection.
pub const DUPLICATION_WINDOW: usize = 6;

/// A line with its runs of whitespace collapsed to one space and trimmed
/// (`split_whitespace` joined by `" "`).
pub open spec fn norm_line(l: Seq<char>) -> Seq<char> {
    join(non_empty(split(l, Separator::Whitespace)), seq![' '])
}

/// The normalized text and 1-based number of each non-blank line of `ls`.
pub open spec fn numbered_lines(ls: Seq<Seq<char>>) -> Seq<(Seq<char>, int)>
    decreases ls.len(),
{
    if ls.len() == 0 {
        Seq::empty()
    } else {
        let r = numbered_lines(ls.drop_last());
        if norm_line(ls.last()).len() == 0 {
            r
        } else {
            r.push((norm_line(ls.last()), ls.len() as int))
        }
    }
}

/// The key of the block of lines starting at `w`: the texts joined by
/// newlines.
pub open spec fn window_key(nl: Seq<(Seq<char>, int)>, w: int) -> Seq<char> {
    join(
        nl.subrange(w, w + DUPLICATION_WINDOW).map_values(|p: (Seq<char>, int)| p.0),
        seq!['\n'],
    )
}

/// Every block of `DUPLICATION_WINDOW` consecutive non-blank lines of one
/// file, with its key and location.
pub open spec fn file_blocks(file: Seq<char>, nl: Seq<(Seq<char>, int)>) -> Seq<
    (Seq<char>, LocationView),
> {
    if nl.len() < DUPLICATION_WINDOW {
        Seq::empty()
    } else {
        Seq::new(
            (nl.len() - DUPLICATION_WINDOW + 1) as nat,
            |w: int|
                (
                    window_key(nl, w),
                    LocationView {
                        file,
                        start_line: nl[w].1 as usize,
                        end_line: nl[w + DUPLICATION_WINDOW - 1].1 as usize,
                    },
                ),
        )
    }
}

/// The blocks of all files, file by file.
pub open spec fn all_blocks(files: Seq<(Seq<char>, Seq<char>)>) -> Seq<(Seq<char>, LocationView)>
    decreases files.len(),
{
    if files.len() == 0 {
        Seq::empty()
    } else {
        all_blocks(files.drop_last()) + file_blocks(
            files.last().0,
            numbered_lines(lines(files.last().1)),
        )
    }
}

impl SpecOrder for (Seq<char>, LocationView) {
    /// Blocks order by key.
    open spec fn order_le(&self, other: &Self) -> bool {
        seq_le(self.0, other.0)
    }
}

/// The locations of runs of blocks with equal keys, in order.
pub open spec fn group_runs(s: Seq<(Seq<char>, LocationView)>) -> Seq<Seq<LocationView>>
    decreases s.len(),
{
    if s.len() == 0 {
        Seq::empty()
    } else {
        let g = group_runs(s.drop_last());
        if s.len() >= 2 && s[s.len() - 2].0 == s.last().0 {
            g.update(g.len() - 1, g.last().push(s.last().1))
        } else {
            g.push(seq![s.last().1])
        }
    }
}

/// The groups of two or more locations, as duplication groups.
pub open spec fn repeated(gs: Seq<Seq<LocationView>>) -> Seq<GroupView>
    decreases gs.len(),
{
    if gs.len() == 0 {
        Seq::empty()
    } else if gs.last().len() >= 2 {
        repeated(gs.drop_last()).push(
            GroupView { line_count: DUPLICATION_WINDOW, occurrences: gs.last() },
        )
    } else {
        repeated(gs.drop_last())
    }
}

/// The first of a group's locations (an empty one when it has none).
pub open spec fn first_location(occ: Seq<LocationView>) -> LocationView {
    if occ.len() > 0 {
        occ[0]
    } else {
        LocationView { file: Seq::empty(), start_line: 0, end_line: 0 }
    }
}

impl SpecOrder for GroupView {
    /// Groups order by descending size, then by the file and first line of
    /// their first occurrence.
    open spec fn order_le(&self, other: &Self) -> bool {
        let a = first_location(self.occurrences);
        let b = first_location(other.occurrences);
        if self.occurrences.len() != other.occurrences.len() {
            self.occurrences.len() > other.occurrences.len()
        } else if a.file != b.file {
            seq_lt(a.file, b.file)
        } else {
            a.start_line <= b.start_line
        }
    }
}

/// The duplication groups of `(file, content)` pairs: the locations of each
/// block key that occurs at least twice, keys in ascending order and
/// locations in input order, then sorted by descending size and first
/// location.
pub open spec fn duplication_spec(files: Seq<(Seq<char>, Seq<char>)>) -> Seq<GroupView> {
    sort_seq(repeated(group_runs(sort_seq(all_blocks(files)))))
}

impl SortKey for (String, DuplicationLocation) {
    fn sort_le_exec(&self, other: &Self) -> (r: bool) {
        match crate::order::compare_str(&self.0, &other.0) {
            Comparison::Greater => false,
            _ => true,
        }
    }
}

impl SortKey for DuplicationGroup {
    fn sort_le_exec(&self, other: &Self) -> (r: bool) {
        let n = self.occurrences.len();
        let m = other.occurrences.len();
        if n != m {
            n > m
        } else if n == 0 {
            true
        } else {
            let a = &self.occurrences[0];
            let b = &other.occurrences[0];
            match crate::order::compare_str(&a.file, &b.file) {
                Comparison::Less => true,
                Comparison::Greater => false,
                Comparison::Equal => a.start_line <= b.start_line,
            }
        }
    }
}

/// A copy of a location.
fn copy_location(l: &DuplicationLocation) -> (r: DuplicationLocation)
    ensures
        r@ == l@,
{
    DuplicationLocation { file: l.file.clone(), start_line: l.start_line, end_line: l.end_line }
}

/// A line with its whitespace runs collapsed to single spaces, trimmed.
fn normalize_line(line: &[char]) -> (r: Vec<char>)
    ensures
        r@ == norm_line(line@),
{
    let pieces = split_chars(line, Separator::Whitespace);
    let words = drop_empty(pieces);
    let space = [' '];
    assert(space@ == seq![' ']);
    join_chars(&words, &space)
}

/// Views of numbered lines.
pub open spec fn numbered_view(v: Seq<(Vec<char>, usize)>) -> Seq<(Seq<char>, int)> {
    v.map_values(|p: (Vec<char>, usize)| (p.0@, p.1 as int))
}

/// The normalized text and 1-based number of each non-blank line.
fn numbered(content: &str) -> (r: Vec<(Vec<char>, usize)>)
    ensures
        numbered_view(r@) == numbered_lines(lines(content@)),
{
    let cs = chars_of(content);
    let ls = lines_of(&cs);
    let ghost lv = pieces_view(ls@);
    let mut r: Vec<(Vec<char>, usize)> = Vec::new();
    let mut i: usize = 0;
    assert(lv.take(0) =~= Seq::<Seq<char>>::empty());
    assert(numbered_view(r@) =~= Seq::<(Seq<char>, int)>::empty());
    while i < ls.len()
        invariant
            i <= ls@.len(),
            lv == pieces_view(ls@),
            numbered_view(r@) == numbered_lines(lv.take(i as int)),
        decreases ls@.len() - i,
    {
        let text = normalize_line(&ls[i]);
        assert(lv.take(i + 1).drop_last() == lv.take(i as int));
        assert(lv.take(i + 1).last() == ls@[i as int]@);
        assert(lv.take(i + 1).len() == i + 1);
        let ghost before = r@;
        if text.len() > 0 {
            r.push((text, i + 1));
            assert(numbered_view(r@) =~= numbered_view(before).push((text@, i + 1)));
        }
        i += 1;
    }
    assert(lv.take(ls@.len() as int) == lv);
    r
}

/// Appends the blocks of one file to `out`.
fn push_file_blocks(
    file: &str,
    nl: &Vec<(Vec<char>, usize)>,
    out: &mut Vec<(String, DuplicationLocation)>,
)
    ensures
        views(final(out)@) == views(old(out)@) + file_blocks(file@, numbered_view(nl@)),
{
    let ghost v = numbered_view(nl@);
    if nl.len() < DUPLICATION_WINDOW {
        assert(views(out@) =~= views(out@) + file_blocks(file@, v));
        return;
    }
    let ghost o0 = views(out@);
    let count = nl.len() - DUPLICATION_WINDOW + 1;
    let mut w: usize = 0;
    assert(file_blocks(file@, v).take(0) =~= Seq::<(Seq<char>, LocationView)>::empty());
    while w < count
        invariant
            nl@.len() >= DUPLICATION_WINDOW,
            count == nl@.len() - DUPLICATION_WINDOW + 1,
            nl@.len() <= usize::MAX,
            w <= count,
            v == numbered_view(nl@),
            views(out@) == o0 + file_blocks(file@, v).take(w as int),
        decreases count - w,
    {
        let mut texts: Vec<Vec<char>> = Vec::new();
        let mut t: usize = 0;
        while t < DUPLICATION_WINDOW
            invariant
                t <= DUPLICATION_WINDOW,
                w < count,
                count == nl@.len() - DUPLICATION_WINDOW + 1,
                nl@.len() <= usize::MAX,
                v == numbered_view(nl@),
                pieces_view(texts@) == v.subrange(w as int, w + t).map_values(
                    |p: (Seq<char>, int)| p.0,
                ),
            decreases DUPLICATION_WINDOW - t,
        {
            assert(DUPLICATION_WINDOW == 6);
            let src = &nl[w + t].0;
            assert(v[w + t] == (src@, nl@[w + t].1 as int));
            let copy = crate::text::slice_to_vec(src, 0, src.len());
            assert(src@.take(src@.len() as int) == src@);
            let ghost tv = pieces_view(texts@);
            texts.push(copy);
            assert(pieces_view(texts@) =~= tv.push(src@));
            assert(v.subrange(w as int, w + t + 1) =~= v.subrange(w as int, w + t).push(v[w + t]));
            assert(pieces_view(texts@) =~= v.subrange(w as int, w + t + 1).map_values(
                |p: (Seq<char>, int)| p.0,
            ));
            t += 1;
        }
        assert(DUPLICATION_WINDOW == 6);
        let newline = ['\n'];
        assert(newline@ == seq!['\n']);
        let key_chars = join_chars(&texts, &newline);
        let key = string_of(&key_chars);
        let loc = DuplicationLocation {
            file: crate::text::string_of(&chars_of(file)),
            start_line: nl[w].1,
            end_line: nl[w + DUPLICATION_WINDOW - 1].1,
        };
        let ghost before = views(out@);
        out.push((key, loc));
        assert(views(out@) =~= before.push(views(out@).last()));
        assert(file_blocks(file@, v).take(w + 1) =~= file_blocks(file@, v).take(w as int).push(
            file_blocks(file@, v)[w as int],
        ));
        assert(views(out@).last() == file_blocks(file@, v)[w as int]);
        w += 1;
    }
    assert(file_blocks(file@, v).take(count as int) =~= file_blocks(file@, v));
}

/// The blocks of all files.
fn collect_blocks(files: &[(String, String)]) -> (r: Vec<(String, DuplicationLocation)>)
    ensures
        views(r@) == all_blocks(views(files@)),
{
    let ghost fv = views(files@);
    let mut r: Vec<(String, DuplicationLocation)> = Vec::new();
    let mut k: usize = 0;
    assert(fv.take(0) =~= Seq::<(Seq<char>, Seq<char>)>::empty());
    assert(views(r@) =~= Seq::<(Seq<char>, LocationView)>::empty());
    while k < files.len()
        invariant
            k <= files@.len(),
            fv == views(files@),
            views(r@) == all_blocks(fv.take(k as int)),
        decreases files@.len() - k,
    {
        let nl = numbered(&files[k].1);
        push_file_blocks(&files[k].0, &nl, &mut r);
        assert(fv.take(k + 1).drop_last() == fv.take(k as int));
        assert(fv.take(k + 1).last() == (files@[k as int].0@, files@[k as int].1@));
        k += 1;
    }
    assert(fv.take(files@.len() as int) == fv);
    r
}

/// Views of groups of locations.
pub open spec fn groups_view(g: Seq<Vec<DuplicationLocation>>) -> Seq<Seq<LocationView>> {
    g.map_values(|v: Vec<DuplicationLocation>| views(v@))
}

/// The locations of runs of blocks with equal keys.
fn group_sorted(s: &Vec<(String, DuplicationLocation)>) -> (r: Vec<Vec<DuplicationLocation>>)
    ensures
        groups_view(r@) == group_runs(views(s@)),
{
    let ghost sv = views(s@);
    let mut r: Vec<Vec<DuplicationLocation>> = Vec::new();
    let mut i: usize = 0;
    assert(sv.take(0) =~= Seq::<(Seq<char>, LocationView)>::empty());
    assert(groups_view(r@) =~= Seq::<Seq<LocationView>>::empty());
    while i < s.len()
        invariant
            i <= s@.len(),
            sv == views(s@),
            groups_view(r@) == group_runs(sv.take(i as int)),
            i > 0 ==> r@.len() > 0,
        decreases s@.len() - i,
    {
        let ghost g0 = groups_view(r@);
        assert(sv.take(i + 1).drop_last() == sv.take(i as int));
        assert(sv.take(i + 1).last() == sv[i as int]);
        assert(sv[i as int] == s@[i as int]@);
        let loc = copy_location(&s[i].1);
        if i > 0 && crate::text::str_eq(&s[i - 1].0, &s[i].0) {
            assert(sv.take(i + 1)[i - 1] == sv[i - 1]);
            assert(sv[i - 1] == s@[i - 1]@);
            let mut last = r.pop().unwrap();
            let ghost lv = views(last@);
            last.push(loc);
            assert(views(last@) =~= lv.push(loc@));
            r.push(last);
            assert(groups_view(r@) =~= g0.update(g0.len() - 1, g0.last().push(loc@)));
        } else {
            proof {
                if i > 0 {
                    assert(sv.take(i + 1)[i - 1] == sv[i - 1]);
                    assert(sv[i - 1] == s@[i - 1]@);
                }
            }
            let mut g: Vec<DuplicationLocation> = Vec::new();
            g.push(loc);
            assert(views(g@) =~= seq![loc@]);
            r.push(g);
            assert(groups_view(r@) =~= g0.push(seq![loc@]));
        }
        i += 1;
    }
    assert(sv.take(s@.len() as int) == sv);
    r
}

/// Finds identical blocks of `DUPLICATION_WINDOW` normalized lines across
/// the given `(file, content)` pairs. Blank lines are ignored; each
/// surviving line keeps its original line number.
pub fn find_duplication(files: &[(String, String)]) -> (r: Vec<DuplicationGroup>)
    ensures
        views(r@) == duplication_spec(views(files@)),
{
    let blocks = collect_blocks(files);
    proof {
        lemma_block_order();
    }
    let sorted = sort_by_key(blocks);
    let runs = group_sorted(&sorted);
    let ghost gv = groups_view(runs@);
    let mut runs = runs;
    let mut rev: Vec<Vec<DuplicationLocation>> = Vec::new();
    let n = runs.len();
    while runs.len() > 0
        invariant
            runs@.len() + rev@.len() == n,
            n == gv.len(),
            forall|j: int| 0 <= j < runs@.len() ==> views(runs@[j]@) == gv[j],
            forall|j: int| 0 <= j < rev@.len() ==> views(rev@[j]@) == gv[n - 1 - j],
        decreases runs@.len(),
    {
        let g = runs.pop().unwrap();
        rev.push(g);
    }
    let mut groups: Vec<DuplicationGroup> = Vec::new();
    let mut i: usize = 0;
    assert(views(groups@) =~= repeated(gv.take(0)));
    while rev.len() > 0
        invariant
            i + rev@.len() == n,
            n == gv.len(),
            forall|j: int| 0 <= j < rev@.len() ==> views(rev@[j]@) == gv[n - 1 - j],
            views(groups@) == repeated(gv.take(i as int)),
        decreases rev@.len(),
    {
        let g = rev.pop().unwrap();
        assert(views(g@) == gv[i as int]);
        assert(gv.take(i + 1).drop_last() == gv.take(i as int));
        assert(gv.take(i + 1).last() == gv[i as int]);
        let ghost before = views(groups@);
        if g.len() >= 2 {
            groups.push(DuplicationGroup { line_count: DUPLICATION_WINDOW, occurrences: g });
            assert(views(groups@) =~= before.push(views(groups@).last()));
        }
        assert(views(groups@) =~= repeated(gv.take(i + 1)));
        i += 1;
    }
    assert(gv.take(n as int) == gv);
    proof {
        lemma_group_order();
    }
    sort_by_key(groups)
}

// --- Laws -------------------------------------------------------------------------

/// Every repeated group spans the window and has two or more locations.
proof fn lemma_repeated_groups(gs: Seq<Seq<LocationView>>)
    ensures
        forall|k: int|
            0 <= k < repeated(gs).len() ==> (#[trigger] repeated(gs)[k]).line_count
                == DUPLICATION_WINDOW && repeated(gs)[k].occurrences.len() >= 2,
    decreases gs.len(),
{
    if gs.len() > 0 {
        lemma_repeated_groups(gs.drop_last());
        let p = repeated(gs.drop_last());
        let r = repeated(gs);
        assert forall|k: int| 0 <= k < r.len() implies (#[trigger] r[k]).line_count
            == DUPLICATION_WINDOW && r[k].occurrences.len() >= 2 by {
            if k < p.len() {
                assert(r[k] == p[k]);
            }
        }
    }
}

/// Blocks order totally and transitively.
proof fn lemma_block_order()
    ensures
        order_total::<(Seq<char>, LocationView)>(),
        order_transitive::<(Seq<char>, LocationView)>(),
{
    assert forall|a: (Seq<char>, LocationView), b: (Seq<char>, LocationView)|
        #[trigger] a.order_le(&b) || b.order_le(&a) by {
        lemma_seq_lt_total(a.0, b.0);
    }
    assert forall|a: (Seq<char>, LocationView), b: (Seq<char>, LocationView), c: (
        Seq<char>,
        LocationView,
    )| #![trigger a.order_le(&b), b.order_le(&c)] a.order_le(&b) && b.order_le(&c) implies a.order_le(
        &c,
    ) by {
        if seq_lt(a.0, b.0) && seq_lt(b.0, c.0) {
            lemma_seq_lt_trans(a.0, b.0, c.0);
        }
    }
}

/// Duplication groups order totally and transitively.
proof fn lemma_group_order()
    ensures
        order_total::<GroupView>(),
        order_transitive::<GroupView>(),
{
    assert forall|a: GroupView, b: GroupView| #[trigger] a.order_le(&b) || b.order_le(&a) by {
        lemma_seq_lt_total(first_location(a.occurrences).file, first_location(b.occurrences).file);
    }
    assert forall|a: GroupView, b: GroupView, c: GroupView|
        #![trigger a.order_le(&b), b.order_le(&c)]
        a.order_le(&b) && b.order_le(&c) implies a.order_le(&c) by {
        let fa = first_location(a.occurrences).file;
        let fb = first_location(b.occurrences).file;
        let fc = first_location(c.occurrences).file;
        lemma_seq_lt_total(fa, fc);
        if seq_lt(fa, fb) && seq_lt(fb, fc) {
            lemma_seq_lt_trans(fa, fb, fc);
        }
    }
}

/// Every duplication group is a block of `DUPLICATION_WINDOW` lines found
/// at two or more locations; groups come largest first, then by the file
/// and line of their first location.
pub proof fn law_duplication_groups(files: Seq<(Seq<char>, Seq<char>)>)
    ensures
        is_sorted(duplication_spec(files)),
        forall|k: int|
            0 <= k < duplication_spec(files).len() ==> (#[trigger] duplication_spec(
                files,
            )[k]).line_count == DUPLICATION_WINDOW && duplication_spec(files)[k].occurrences.len()
                >= 2,
{
    let gs = repeated(group_runs(sort_seq(all_blocks(files))));
    lemma_group_order();
    lemma_sort_sorted(gs);
    lemma_sort_contains(gs);
    lemma_repeated_groups(group_runs(sort_seq(all_blocks(files))));
    let r = duplication_spec(files);
    assert forall|k: int| 0 <= k < r.len() implies (#[trigger] r[k]).line_count
        == DUPLICATION_WINDOW && r[k].occurrences.len() >= 2 by {
        assert(gs.contains(r[k]));
        let m = choose|m: int| 0 <= m < gs.len() && gs[m] == r[k];
        assert(gs[m].line_count == DUPLICATION_WINDOW);
    }
}

// --- Line normalization ------------------------------------------------------

/// No piece of a split holds a separator.
proof fn lemma_split_pieces_free(s: Seq<char>, sep: Separator)
    ensures
        forall|k: int, i: int|
            0 <= k < split(s, sep).len() && 0 <= i < split(s, sep)[k].len() ==> !is_sep(
                sep,
                #[trigger] split(s, sep)[k][i],
            ),
    decreases s.len(),
{
    if s.len() > 0 {
        lemma_split_pieces_free(s.drop_last(), sep);
        crate::text::lemma_split_nonempty(s.drop_last(), sep);
        let p = split(s.drop_last(), sep);
        let r = split(s, sep);
        assert forall|k: int, i: int| 0 <= k < r.len() && 0 <= i < r[k].len() implies !is_sep(
            sep,
            #[trigger] r[k][i],
        ) by {
            if is_sep(sep, s.last()) {
                if k < p.len() {
                    assert(r[k] == p[k]);
                }
            } else if k < p.len() - 1 {
                assert(r[k] == p[k]);
            } else {
                assert(r[k] == p.last().push(s.last()));
                if i < p.last().len() {
                    assert(r[k][i] == p[p.len() - 1][i]);
                }
            }
        }
    }
}

/// The pieces kept by `non_empty` are non-empty pieces of the input.
proof fn lemma_non_empty_pieces(ps: Seq<Seq<char>>)
    ensures
        forall|k: int| 0 <= k < non_empty(ps).len() ==> (#[trigger] non_empty(ps)[k]).len() > 0 && ps.contains(non_empty(ps)[k]),
    decreases ps.len(),
{
    if ps.len() > 0 {
        lemma_non_empty_pieces(ps.drop_last());
        let q = non_empty(ps.drop_last());
        let r = non_empty(ps);
        assert forall|k: int| 0 <= k < r.len() implies (#[trigger] r[k]).len() > 0 && ps.contains(r[k]) by {
            if k < q.len() {
                assert(r[k] == q[k]);
                let m = choose|m: int| 0 <= m < ps.drop_last().len() && ps.drop_last()[m] == q[k];
                assert(ps[m] == q[k]);
            } else {
                assert(r[k] == ps.last());
                assert(ps[ps.len() - 1] == ps.last());
            }
        }
    }
}

/// Whether `t` is trimmed and has single spaces: no white space at either
/// end, and every white-space character is a space between two
/// non-white-space characters.
pub open spec fn single_spaced(t: Seq<char>) -> bool {
    &&& t.len() > 0 ==> !whitespace(t[0]) && !whitespace(t.last())
    &&& forall|i: int|
        0 <= i < t.len() && #[trigger] whitespace(t[i]) ==> t[i] == ' ' && 0 < i < t.len() - 1 && !whitespace(
            t[i - 1],
        ) && !whitespace(t[i + 1])
}

/// Joining non-empty pieces without white space by single spaces gives a
/// single-spaced text.
proof fn lemma_join_single_spaced(ps: Seq<Seq<char>>)
    requires
        forall|k: int| 0 <= k < ps.len() ==> (#[trigger] ps[k]).len() > 0,
        forall|k: int, i: int| 0 <= k < ps.len() && 0 <= i < ps[k].len() ==> !whitespace(#[trigger] ps[k][i]),
    ensures
        single_spaced(join(ps, seq![' '])),
    decreases ps.len(),
{
    let t = join(ps, seq![' ']);
    if ps.len() == 1 {
        assert(t == ps[0]);
        assert(t.last() == ps[0][ps[0].len() - 1]);
    } else if ps.len() > 1 {
        let init = ps.drop_last();
        assert forall|k: int| 0 <= k < init.len() implies (#[trigger] init[k]).len() > 0 by {
            assert(init[k] == ps[k]);
        }
        assert forall|k: int, i: int| 0 <= k < init.len() && 0 <= i < init[k].len() implies !whitespace(
            #[trigger] init[k][i],
        ) by {
            assert(init[k] == ps[k]);
        }
        lemma_join_single_spaced(init);
        let a = join(init, seq![' ']);
        let l = ps.last();
        assert(ps[ps.len() - 1] == l);
        assert(whitespace(' '));
        assert(t == a + seq![' '] + l);
        assert(a.len() > 0) by {
            if a.len() == 0 {
                lemma_join_nonempty(init);
            }
        }
        assert(t[0] == a[0]);
        assert(t.last() == l[l.len() - 1]);
        assert forall|i: int| 0 <= i < t.len() && #[trigger] whitespace(t[i]) implies t[i] == ' ' && 0 < i
            < t.len() - 1 && !whitespace(t[i - 1]) && !whitespace(t[i + 1]) by {
            if i < a.len() {
                assert(t[i] == a[i]);
                if i + 1 < a.len() {
                    assert(t[i + 1] == a[i + 1]);
                }
                if i > 0 {
                    assert(t[i - 1] == a[i - 1]);
                }
            } else if i == a.len() {
                assert(t[i - 1] == a.last());
                assert(t[i + 1] == l[0]);
            } else {
                assert(t[i] == l[i - a.len() - 1]);
            }
        }
    }
}

/// Joining one or more non-empty pieces gives a non-empty text.
proof fn lemma_join_nonempty(ps: Seq<Seq<char>>)
    requires
        ps.len() > 0,
        forall|k: int| 0 <= k < ps.len() ==> (#[trigger] ps[k]).len() > 0,
    ensures
        join(ps, seq![' ']).len() > 0,
{
    if ps.len() > 1 {
        assert(ps[ps.len() - 1] == ps.last());
    } else {
        assert(ps[0].len() > 0);
    }
}

/// A split of white space alone has only empty pieces.
proof fn lemma_split_blank(s: Seq<char>)
    requires
        forall|i: int| 0 <= i < s.len() ==> whitespace(#[trigger] s[i]),
    ensures
        non_empty(split(s, Separator::Whitespace)).len() == 0,
{
    lemma_split_blank_pieces(s);
}

/// A split of white space alone has only empty pieces (piece by piece).
proof fn lemma_split_blank_pieces(s: Seq<char>)
    requires
        forall|i: int| 0 <= i < s.len() ==> whitespace(#[trigger] s[i]),
    ensures
        forall|k: int| 0 <= k < split(s, Separator::Whitespace).len() ==> (#[trigger] split(s, Separator::Whitespace)[k]).len() == 0,
        non_empty(split(s, Separator::Whitespace)).len() == 0,
    decreases s.len(),
{
    let ps = split(s, Separator::Whitespace);
    if s.len() > 0 {
        let d = s.drop_last();
        assert forall|i: int| 0 <= i < d.len() implies whitespace(#[trigger] d[i]) by {
            assert(d[i] == s[i]);
        }
        lemma_split_blank_pieces(d);
        assert(whitespace(s[s.len() - 1]));
        assert(ps == split(d, Separator::Whitespace).push(Seq::<char>::empty()));
        assert forall|k: int| 0 <= k < ps.len() implies (#[trigger] ps[k]).len() == 0 by {
            if k < ps.len() - 1 {
                assert(ps[k] == split(d, Separator::Whitespace)[k]);
            }
        }
    }
    lemma_non_empty_all_empty(ps);
}

/// `non_empty` of empty pieces is empty.
proof fn lemma_non_empty_all_empty(ps: Seq<Seq<char>>)
    requires
        forall|k: int| 0 <= k < ps.len() ==> (#[trigger] ps[k]).len() == 0,
    ensures
        non_empty(ps).len() == 0,
    decreases ps.len(),
{
    if ps.len() > 0 {
        let d = ps.drop_last();
        assert forall|k: int| 0 <= k < d.len() implies (#[trigger] d[k]).len() == 0 by {
            assert(d[k] == ps[k]);
        }
        lemma_non_empty_all_empty(d);
        assert(ps[ps.len() - 1].len() == 0);
    }
}

/// Whether `a` and `b` have the same words: the same runs of non-white-space
/// characters, in order.
pub open spec fn same_words(a: Seq<char>, b: Seq<char>) -> bool {
    non_empty(split(a, Separator::Whitespace)) == non_empty(split(b, Separator::Whitespace))
}

/// Normalizing a line trims it and collapses each run of white space to
/// one space: the result is single-spaced, lines with the same words
/// (differing only in indentation or inner white space) normalize alike,
/// and a line of white space alone normalizes to nothing (so it is
/// skipped as blank).
pub proof fn law_norm_line_collapses_whitespace(l: Seq<char>, m: Seq<char>)
    ensures
        single_spaced(norm_line(l)),
        same_words(l, m) ==> norm_line(l) == norm_line(m),
        (forall|i: int| 0 <= i < l.len() ==> whitespace(#[trigger] l[i])) ==> norm_line(l).len() == 0,
        (exists|i: int| 0 <= i < l.len() && !whitespace(#[trigger] l[i])) ==> norm_line(l).len() > 0,
{
    let ps = non_empty(split(l, Separator::Whitespace));
    lemma_split_pieces_free(l, Separator::Whitespace);
    lemma_non_empty_pieces(split(l, Separator::Whitespace));
    assert forall|k: int, i: int| 0 <= k < ps.len() && 0 <= i < ps[k].len() implies !whitespace(#[trigger] ps[k][i]) by {
        let sp = split(l, Separator::Whitespace);
        let m2 = choose|m2: int| 0 <= m2 < sp.len() && sp[m2] == ps[k];
        assert(!is_sep(Separator::Whitespace, sp[m2][i]));
    }
    lemma_join_single_spaced(ps);
    if forall|i: int| 0 <= i < l.len() ==> whitespace(#[trigger] l[i]) {
        lemma_split_blank(l);
    }
    if exists|i: int| 0 <= i < l.len() && !whitespace(#[trigger] l[i]) {
        let i = choose|i: int| 0 <= i < l.len() && !whitespace(#[trigger] l[i]);
        lemma_word_kept(l, i);
        lemma_join_nonempty(ps);
    }
}

/// A line with a non-white-space character keeps a word.
proof fn lemma_word_kept(l: Seq<char>, i: int)
    requires
        0 <= i < l.len(),
        !whitespace(l[i]),
    ensures
        non_empty(split(l, Separator::Whitespace)).len() > 0,
    decreases l.len(),
{
    let d = l.drop_last();
    let sp = split(l, Separator::Whitespace);
    crate::text::lemma_split_nonempty(d, Separator::Whitespace);
    if i == l.len() - 1 {
        assert(sp == split(d, Separator::Whitespace).update(
            split(d, Separator::Whitespace).len() - 1,
            split(d, Separator::Whitespace).last().push(l.last()),
        ));
        assert(sp.last().len() > 0);
        assert(sp[sp.len() - 1].len() > 0);
        lemma_non_empty_count(sp);
    } else {
        assert(d[i] == l[i]);
        lemma_word_kept(d, i);
        lemma_non_empty_grows(d);
        assert(l == d.push(l.last()));
        assert(non_empty(split(d.push(l.last()), Separator::Whitespace)).len() > 0);
    }
}

/// Adding one character to a line keeps its words non-empty.
proof fn lemma_non_empty_grows(d: Seq<char>)
    ensures
        forall|c: char| non_empty(split(d, Separator::Whitespace)).len() > 0 ==> #[trigger] non_empty(
            split(d.push(c), Separator::Whitespace),
        ).len() > 0,
{
    assert forall|c: char| non_empty(split(d, Separator::Whitespace)).len() > 0 implies #[trigger] non_empty(
        split(d.push(c), Separator::Whitespace),
    ).len() > 0 by {
        let l = d.push(c);
        assert(l.drop_last() == d);
        let p = split(d, Separator::Whitespace);
        crate::text::lemma_split_nonempty(d, Separator::Whitespace);
        lemma_non_empty_count(p);
        let k = choose|k: int| 0 <= k < p.len() && p[k].len() > 0;
        let sp = split(l, Separator::Whitespace);
        if whitespace(c) {
            assert(sp == p.push(Seq::<char>::empty()));
            assert(sp[k] == p[k]);
        } else {
            assert(sp == p.update(p.len() - 1, p.last().push(c)));
            if k < p.len() - 1 {
                assert(sp[k] == p[k]);
            } else {
                assert(sp[k] == p.last().push(c));
            }
        }
        lemma_non_empty_count(sp);
    }
}

/// `non_empty` keeps something exactly when some piece is non-empty.
proof fn lemma_non_empty_count(ps: Seq<Seq<char>>)
    ensures
        non_empty(ps).len() > 0 <==> exists|k: int| 0 <= k < ps.len() && (#[trigger] ps[k]).len() > 0,
    decreases ps.len(),
{
    if ps.len() > 0 {
        let d = ps.drop_last();
        lemma_non_empty_count(d);
        if exists|k: int| 0 <= k < d.len() && (#[trigger] d[k]).len() > 0 {
            let k = choose|k: int| 0 <= k < d.len() && (#[trigger] d[k]).len() > 0;
            assert(ps[k] == d[k]);
        }
        if exists|k: int| 0 <= k < ps.len() && (#[trigger] ps[k]).len() > 0 {
            let k = choose|k: int| 0 <= k < ps.len() && (#[trigger] ps[k]).len() > 0;
            if k < d.len() {
                assert(d[k] == ps[k]);
            }
        }
    }
}

/// Lines with the same words, line by line, number alike.
proof fn lemma_numbered_same_words(a: Seq<Seq<char>>, b: Seq<Seq<char>>)
    requires
        a.len() == b.len(),
        forall|k: int| 0 <= k < a.len() ==> same_words(#[trigger] a[k], b[k]),
    ensures
        numbered_lines(a) == numbered_lines(b),
    decreases a.len(),
{
    if a.len() > 0 {
        let (da, db) = (a.drop_last(), b.drop_last());
        assert forall|k: int| 0 <= k < da.len() implies same_words(#[trigger] da[k], db[k]) by {
            assert(da[k] == a[k] && db[k] == b[k]);
        }
        lemma_numbered_same_words(da, db);
        assert(same_words(a[a.len() - 1], b[b.len() - 1]));
        law_norm_line_collapses_whitespace(a.last(), b.last());
    }
}

/// Whether two lists of files have the same names and, line by line, the
/// same words.
pub open spec fn same_words_files(f: Seq<(Seq<char>, Seq<char>)>, g: Seq<(Seq<char>, Seq<char>)>) -> bool {
    &&& f.len() == g.len()
    &&& forall|i: int|
        0 <= i < f.len() ==> (#[trigger] f[i]).0 == g[i].0 && lines(f[i].1).len() == lines(g[i].1).len()
            && forall|k: int| 0 <= k < lines(f[i].1).len() ==> same_words(#[trigger] lines(f[i].1)[k], lines(g[i].1)[k])
}

/// Duplication ignores indentation and inner white space: files that have,
/// line by line, the same words give the same duplication groups.
pub proof fn law_duplication_ignores_whitespace(f: Seq<(Seq<char>, Seq<char>)>, g: Seq<(Seq<char>, Seq<char>)>)
    requires
        same_words_files(f, g),
    ensures
        duplication_spec(f) == duplication_spec(g),
{
    lemma_blocks_same_words(f, g);
}

/// Files with the same words line by line have the same blocks.
proof fn lemma_blocks_same_words(f: Seq<(Seq<char>, Seq<char>)>, g: Seq<(Seq<char>, Seq<char>)>)
    requires
        same_words_files(f, g),
    ensures
        all_blocks(f) == all_blocks(g),
    decreases f.len(),
{
    if f.len() > 0 {
        let (df, dg) = (f.drop_last(), g.drop_last());
        assert forall|i: int| 0 <= i < df.len() implies (#[trigger] df[i]).0 == dg[i].0 && lines(df[i].1).len()
            == lines(dg[i].1).len() && forall|k: int|
            0 <= k < lines(df[i].1).len() ==> same_words(#[trigger] lines(df[i].1)[k], lines(dg[i].1)[k]) by {
            assert(df[i] == f[i] && dg[i] == g[i]);
        }
        lemma_blocks_same_words(df, dg);
        let n = f.len() - 1;
        assert(f[n] == f.last() && g[n] == g.last());
        let (la, lb) = (lines(f.last().1), lines(g.last().1));
        assert forall|k: int| 0 <= k < la.len() implies same_words(#[trigger] la[k], lb[k]) by {
            assert(la[k] == lines(f[n].1)[k]);
        }
        lemma_numbered_same_words(la, lb);
    }
}

} // verus!
