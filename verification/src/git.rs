//! The git reader's decisions: names and clone locations of repositories,
//! file nodes, branch labels, error mapping and per-file churn. The
//! application reads the repository with libgit2 and hands the values over.
use vstd::prelude::*;

use crate::entities::ast::strings_view;
use crate::entities::history::ChurnView;
use crate::entities::{FileChurn, FileNode, Language};
use crate::errors::GitError;
use crate::order::{
    insert_sorted, is_sorted, lemma_sort_contains, lemma_sort_sorted, lemma_strs_lt_total, lemma_strs_lt_trans,
    order_total, order_transitive, sort_by_key, sort_seq, strings_le, strs_lt, views, SortKey,
    SpecOrder,
};
use crate::paths::{after_last_slash, after_last_slash_str, extension, extension_str, file_name, file_name_str};
use crate::text::{trim_trailing, trim_trailing_chars, chars_of, drop_empty, non_empty, pieces_view, slice_to_vec, split, split_chars, string_of, str_eq, Separator};

verus! {

// --- Names -------------------------------------------------------------------

/// The directory name a clone of `url` gets: the URL's last segment
/// without trailing slashes and `.git` suffixes, or `repository`.
pub open spec fn clone_dir_name(url: Seq<char>) -> Seq<char> {
    let n = trim_trailing(after_last_slash(trim_trailing(url, "/"@)), ".git"@);
    if n.len() == 0 {
        "repository"@
    } else {
        n
    }
}

/// `name` placed under the directory `base` (`Path::join` with a plain
/// name).
pub open spec fn join_path(base: Seq<char>, name: Seq<char>) -> Seq<char> {
    if base.len() == 0 {
        name
    } else if base.last() == '/' {
        base + name
    } else {
        base + "/"@ + name
    }
}

/// Places `name` under the directory `base`.
pub fn join_path_str(base: &str, name: &str) -> (r: String)
    ensures
        r@ == join_path(base@, name@),
{
    let b = chars_of(base);
    if b.len() == 0 {
        return name.to_string();
    }
    let mut out = base.to_string();
    if b[b.len() - 1] != '/' {
        out = crate::text::concat(&out, "/");
    }
    crate::text::concat(&out, name)
}

/// A git reader that clones remote repositories under `clone_base`; local
/// repositories are read in place.
#[derive(Clone, Debug)]
pub struct Git2Reader {
    /// Directory that receives clones.
    pub clone_base: String,
}

impl Git2Reader {
    /// Creates a reader that clones remote repositories under `clone_base`.
    pub fn new(clone_base: String) -> (r: Git2Reader)
        ensures
            r.clone_base@ == clone_base@,
    {
        Git2Reader { clone_base }
    }

    /// Resolves the destination directory for cloning `url`.
    pub fn clone_destination(&self, url: &str) -> (r: String)
        ensures
            r@ == join_path(self.clone_base@, clone_dir_name(url@)),
    {
        let u = chars_of(url);
        let slash = chars_of("/");
        let dot_git = chars_of(".git");
        proof {
            reveal_strlit("/");
            reveal_strlit(".git");
        }
        let trimmed = trim_trailing_chars(&u, &slash);
        let trimmed = string_of(&trimmed);
        let last = after_last_slash_str(&trimmed);
        let last = chars_of(&last);
        let name = trim_trailing_chars(&last, &dot_git);
        let name = if name.len() == 0 {
            "repository".to_string()
        } else {
            string_of(&name)
        };
        join_path_str(&self.clone_base, &name)
    }
}

/// The display name of a repository at `path`: its last component, or
/// `repository`.
pub open spec fn repository_name_spec(path: Seq<char>) -> Seq<char> {
    match file_name(path) {
        Some(n) => n,
        None => "repository"@,
    }
}

/// Extracts a display name from a repository path.
pub fn repository_name(path: &str) -> (r: String)
    ensures
        r@ == repository_name_spec(path@),
{
    match file_name_str(path) {
        Some(n) => n,
        None => "repository".to_string(),
    }
}

/// The language of a path, from its extension.
pub open spec fn language_of_path(path: Seq<char>) -> Language {
    match extension(path) {
        Some(e) => crate::entities::language::language_of_extension(e),
        None => Language::Unknown,
    }
}

/// Detects the language of a path from its extension.
pub fn language_of(path: &str) -> (r: Language)
    ensures
        r == language_of_path(path@),
{
    match extension_str(path) {
        Some(e) => Language::from_extension(&e),
        None => Language::Unknown,
    }
}

/// Wraps a blob's path and size into a file node.
pub fn file_node(path: String, size_bytes: u64) -> (r: FileNode)
    ensures
        r matches FileNode::File { path: p, size_bytes: s, language: l } && p@ == path@ && s
            == size_bytes && l == language_of_path(path@),
{
    let language = language_of(&path);
    FileNode::File { path, size_bytes, language }
}

/// The label of HEAD: the branch's short name (or `HEAD` when it has
/// none), or a detached-HEAD marker.
pub open spec fn branch_label_spec(is_branch: bool, shorthand: Option<Seq<char>>) -> Seq<char> {
    if is_branch {
        match shorthand {
            Some(s) => s,
            None => "HEAD"@,
        }
    } else {
        "HEAD (detached)"@
    }
}

/// Returns the short branch name for HEAD, or a detached-HEAD marker.
pub fn branch_label(is_branch: bool, shorthand: Option<String>) -> (r: String)
    ensures
        r@ == branch_label_spec(
            is_branch,
            match shorthand {
                Some(s) => Some(s@),
                None => None,
            },
        ),
{
    if is_branch {
        match shorthand {
            Some(s) => s,
            None => "HEAD".to_string(),
        }
    } else {
        "HEAD (detached)".to_string()
    }
}

// --- Errors --------------------------------------------------------------------

/// The libgit2 error codes the reader tells apart.
#[derive(Clone, Copy, PartialEq, Eq, Structural, Debug)]
pub enum GitErrorCode {
    /// HEAD names a branch without commits.
    UnbornBranch,
    /// The object or repository was not found.
    NotFound,
    /// Any other code.
    Other,
}

/// Maps a failure to read HEAD: an unborn or missing HEAD means the
/// repository has no commits.
pub fn head_failure(code: GitErrorCode, message: String) -> (r: GitError)
    ensures
        code != GitErrorCode::Other ==> r == GitError::EmptyRepository,
        code == GitErrorCode::Other ==> (r matches GitError::Backend(m) && m@ == message@),
{
    match code {
        GitErrorCode::Other => GitError::Backend(message),
        _ => GitError::EmptyRepository,
    }
}

/// Maps a failure to open the repository at `path`: a missing repository
/// is not a repository.
pub fn open_failure(code: GitErrorCode, path: String, message: String) -> (r: GitError)
    ensures
        code == GitErrorCode::NotFound ==> (r matches GitError::NotARepository { path: p } && p@
            == path@),
        code != GitErrorCode::NotFound ==> (r matches GitError::Backend(m) && m@ == message@),
{
    match code {
        GitErrorCode::NotFound => GitError::NotARepository { path },
        _ => GitError::Backend(message),
    }
}

// --- Churn -----------------------------------------------------------------------

/// Position of the entry for `path` among `rows`.
pub open spec fn churn_index(rows: Seq<ChurnView>, path: Seq<char>) -> Option<int> {
    if exists|k: int| 0 <= k < rows.len() && rows[k].path == path {
        Some(choose|k: int| 0 <= k < rows.len() && rows[k].path == path)
    } else {
        None
    }
}

/// Changes aggregated per path, in order of each path's first change: the
/// number of changes and the latest change time.
pub open spec fn aggregate_churn(events: Seq<(Seq<char>, i64)>) -> Seq<ChurnView>
    decreases events.len(),
{
    if events.len() == 0 {
        Seq::empty()
    } else {
        let r = aggregate_churn(events.drop_last());
        let (path, time) = events.last();
        match churn_index(r, path) {
            Some(k) => r.update(
                k,
                ChurnView {
                    path,
                    commit_count: (r[k].commit_count + 1) as usize,
                    last_modified: if r[k].last_modified >= time { r[k].last_modified } else { time },
                },
            ),
            None => r.push(ChurnView { path, commit_count: 1, last_modified: time }),
        }
    }
}

/// The components of a `/`-separated relative path.
pub open spec fn components(p: Seq<char>) -> Seq<Seq<char>> {
    non_empty(split(p, Separator::Char('/')))
}

impl SpecOrder for ChurnView {
    /// Most changes first, then paths by their components.
    open spec fn order_le(&self, other: &Self) -> bool {
        if self.commit_count != other.commit_count {
            self.commit_count > other.commit_count
        } else {
            components(self.path) == components(other.path) || strs_lt(
                components(self.path),
                components(other.path),
            )
        }
    }
}

/// The components of a path, as strings.
fn components_of(p: &str) -> (r: Vec<String>)
    ensures
        strings_view(r@) == components(p@),
{
    let cs = chars_of(p);
    let pieces = drop_empty(split_chars(&cs, Separator::Char('/')));
    let mut r: Vec<String> = Vec::new();
    let mut i: usize = 0;
    while i < pieces.len()
        invariant
            i <= pieces@.len(),
            strings_view(r@) == pieces_view(pieces@).take(i as int),
        decreases pieces@.len() - i,
    {
        let ghost before = strings_view(r@);
        r.push(string_of(&pieces[i]));
        assert(strings_view(r@) =~= before.push(pieces@[i as int]@));
        assert(pieces_view(pieces@).take(i + 1) == pieces_view(pieces@).take(i as int).push(
            pieces@[i as int]@,
        ));
        assert(strings_view(r@) =~= pieces_view(pieces@).take(i + 1));
        i += 1;
    }
    assert(pieces_view(pieces@).take(pieces@.len() as int) == pieces_view(pieces@));
    r
}

impl SortKey for FileChurn {
    fn sort_le_exec(&self, other: &Self) -> (r: bool) {
        if self.commit_count != other.commit_count {
            self.commit_count > other.commit_count
        } else {
            let a = components_of(&self.path);
            let b = components_of(&other.path);
            strings_le(a.as_slice(), b.as_slice())
        }
    }
}

/// Per-file churn from the changes of a history: `events` holds the path
/// and commit time of each changed file, commit by commit. Files are
/// ordered by descending number of changes, then by path.
pub fn churn_table(events: &[(String, i64)]) -> (r: Vec<FileChurn>)
    ensures
        views(r@) == sort_seq(aggregate_churn(events@.map_values(|e: (String, i64)| (e.0@, e.1)))),
{
    let ghost ev = events@.map_values(|e: (String, i64)| (e.0@, e.1));
    let mut rows: Vec<FileChurn> = Vec::new();
    let mut i: usize = 0;
    assert(ev.take(0) =~= Seq::<(Seq<char>, i64)>::empty());
    while i < events.len()
        invariant
            i <= events@.len(),
            ev == events@.map_values(|e: (String, i64)| (e.0@, e.1)),
            views(rows@) == aggregate_churn(ev.take(i as int)),
            forall|k: int| 0 <= k < rows@.len() ==> rows@[k].commit_count <= i,
            forall|a: int, b: int| 0 <= a < b < rows@.len() ==> rows@[a].path@ != rows@[b].path@,
        decreases events@.len() - i,
    {
        let (path, time) = (&events[i].0, events[i].1);
        assert(ev.take(i + 1).drop_last() == ev.take(i as int));
        assert(ev.take(i + 1).last() == (path@, time));
        let ghost rv = views(rows@);
        let mut k: usize = 0;
        while k < rows.len()
            invariant
                k <= rows@.len(),
                rv == views(rows@),
                forall|j: int| 0 <= j < k ==> rv[j].path != path@,
                forall|a: int, b: int| 0 <= a < b < rv.len() ==> rv[a].path != rv[b].path,
            ensures
                k <= rows@.len(),
                forall|j: int| 0 <= j < k ==> rv[j].path != path@,
                k < rows@.len() ==> rv[k as int].path == path@,
            decreases rows@.len() - k,
        {
            assert(rv[k as int] == rows@[k as int]@);
            if str_eq(&rows[k].path, path) {
                break;
            }
            k += 1;
        }
        if k < rows.len() {
            assert(rv[k as int] == rows@[k as int]@);
            assert(churn_index(rv, path@) == Some(k as int)) by {
                let j = choose|j: int| 0 <= j < rv.len() && rv[j].path == path@;
                if j != k as int {
                    if j < k {
                        assert(rv[j].path != path@);
                    } else {
                        assert(rv[k as int].path != rv[j].path);
                    }
                }
            }
            let row = &rows[k];
            assert(row.commit_count <= i);
            let updated = FileChurn {
                path: row.path.clone(),
                commit_count: row.commit_count + 1,
                last_modified: if row.last_modified >= time { row.last_modified } else { time },
            };
            rows.set(k, updated);
            assert forall|a: int, b: int| 0 <= a < b < rows@.len() implies rows@[a].path@
                != rows@[b].path@ by {
                assert(rows@[a].path@ == rv[a].path);
                assert(rows@[b].path@ == rv[b].path);
            }
            assert(views(rows@) =~= rv.update(
                k as int,
                ChurnView {
                    path: path@,
                    commit_count: (rv[k as int].commit_count + 1) as usize,
                    last_modified: if rv[k as int].last_modified >= time {
                        rv[k as int].last_modified
                    } else {
                        time
                    },
                },
            ));
        } else {
            assert(churn_index(rv, path@) is None);
            rows.push(FileChurn { path: path.clone(), commit_count: 1, last_modified: time });
            assert(views(rows@) =~= rv.push(rows@.last()@));
            assert forall|a: int, b: int| 0 <= a < b < rows@.len() implies rows@[a].path@
                != rows@[b].path@ by {
                assert(rows@[a].path@ == views(rows@)[a].path);
                assert(rows@[b].path@ == views(rows@)[b].path);
            }
        }
        i += 1;
    }
    assert(ev.take(events@.len() as int) == ev);
    proof {
        lemma_churn_order();
    }
    sort_by_key(rows)
}

// --- Laws -------------------------------------------------------------------------

/// The total number of changes counted in `rows`.
pub open spec fn churn_total(rows: Seq<ChurnView>) -> int
    decreases rows.len(),
{
    if rows.len() == 0 {
        0
    } else {
        churn_total(rows.drop_last()) + rows.last().commit_count
    }
}

/// Replacing one row changes the total by the difference of the counts.
proof fn lemma_churn_total_update(rows: Seq<ChurnView>, k: int, v: ChurnView)
    requires
        0 <= k < rows.len(),
    ensures
        churn_total(rows.update(k, v)) == churn_total(rows) - rows[k].commit_count + v.commit_count,
    decreases rows.len(),
{
    let u = rows.update(k, v);
    if k == rows.len() - 1 {
        assert(u.drop_last() =~= rows.drop_last());
    } else {
        lemma_churn_total_update(rows.drop_last(), k, v);
        assert(u.drop_last() =~= rows.drop_last().update(k, v));
    }
}

/// Each row counts at most the total.
proof fn lemma_churn_row_le_total(rows: Seq<ChurnView>, k: int)
    requires
        0 <= k < rows.len(),
    ensures
        rows[k].commit_count <= churn_total(rows),
    decreases rows.len(),
{
    lemma_churn_total_nonneg(rows.drop_last());
    if k < rows.len() - 1 {
        lemma_churn_row_le_total(rows.drop_last(), k);
    }
}

/// Totals are not negative.
proof fn lemma_churn_total_nonneg(rows: Seq<ChurnView>)
    ensures
        churn_total(rows) >= 0,
    decreases rows.len(),
{
    if rows.len() > 0 {
        lemma_churn_total_nonneg(rows.drop_last());
    }
}

/// Aggregating counts every change exactly once, each row at least once.
proof fn lemma_aggregate_total(events: Seq<(Seq<char>, i64)>)
    requires
        events.len() <= usize::MAX,
    ensures
        churn_total(aggregate_churn(events)) == events.len(),
        forall|k: int| 0 <= k < aggregate_churn(events).len() ==> (#[trigger] aggregate_churn(events)[k]).commit_count >= 1,
    decreases events.len(),
{
    if events.len() > 0 {
        let p = events.drop_last();
        lemma_aggregate_total(p);
        let r = aggregate_churn(p);
        let (path, time) = events.last();
        match churn_index(r, path) {
            Some(k) => {
                lemma_churn_row_le_total(r, k);
                let v = ChurnView {
                    path,
                    commit_count: (r[k].commit_count + 1) as usize,
                    last_modified: if r[k].last_modified >= time { r[k].last_modified } else { time },
                };
                lemma_churn_total_update(r, k, v);
                let a = aggregate_churn(events);
                assert(a == r.update(k, v));
                assert forall|j: int| 0 <= j < a.len() implies (#[trigger] a[j]).commit_count >= 1 by {
                    if j != k {
                        assert(a[j] == r[j]);
                    }
                }
            },
            None => {
                let a = aggregate_churn(events);
                assert(a.drop_last() == r);
                assert forall|j: int| 0 <= j < a.len() implies (#[trigger] a[j]).commit_count >= 1 by {
                    if j < r.len() {
                        assert(a[j] == r[j]);
                    }
                }
            },
        }
    }
}

/// Inserting a row adds its count to the total.
proof fn lemma_churn_total_insert(s: Seq<ChurnView>, x: ChurnView)
    ensures
        churn_total(insert_sorted(s, x)) == churn_total(s) + x.commit_count,
    decreases s.len(),
{
    if s.len() > 0 && !s.last().order_le(&x) {
        lemma_churn_total_insert(s.drop_last(), x);
        assert(insert_sorted(s, x).drop_last() == insert_sorted(s.drop_last(), x));
    } else if s.len() > 0 {
        assert(insert_sorted(s, x).drop_last() == s);
    } else {
        assert(insert_sorted(s, x).drop_last() =~= s);
    }
}

/// Sorting keeps the total.
proof fn lemma_churn_total_sort(s: Seq<ChurnView>)
    ensures
        churn_total(sort_seq(s)) == churn_total(s),
    decreases s.len(),
{
    if s.len() > 0 {
        lemma_churn_total_sort(s.drop_last());
        lemma_churn_total_insert(sort_seq(s.drop_last()), s.last());
    }
}

/// Churn rows order totally and transitively.
proof fn lemma_churn_order()
    ensures
        order_total::<ChurnView>(),
        order_transitive::<ChurnView>(),
{
    assert forall|a: ChurnView, b: ChurnView| #[trigger] a.order_le(&b) || b.order_le(&a) by {
        lemma_strs_lt_total(components(a.path), components(b.path));
    }
    assert forall|a: ChurnView, b: ChurnView, c: ChurnView|
        #![trigger a.order_le(&b), b.order_le(&c)]
        a.order_le(&b) && b.order_le(&c) implies a.order_le(&c) by {
        let (x, y, z) = (components(a.path), components(b.path), components(c.path));
        if strs_lt(x, y) && strs_lt(y, z) {
            lemma_strs_lt_trans(x, y, z);
        }
    }
}

/// The churn table counts every change of the history exactly once: its
/// counts add up to the number of changes, and each listed file changed at
/// least once. Files come most changed first, then by path.
pub proof fn law_churn_counts_every_change(events: Seq<(Seq<char>, i64)>)
    requires
        events.len() <= usize::MAX,
    ensures
        churn_total(sort_seq(aggregate_churn(events))) == events.len(),
        is_sorted(sort_seq(aggregate_churn(events))),
        forall|k: int|
            0 <= k < sort_seq(aggregate_churn(events)).len() ==> (#[trigger] sort_seq(
                aggregate_churn(events),
            )[k]).commit_count >= 1,
{
    let a = aggregate_churn(events);
    lemma_aggregate_total(events);
    lemma_churn_total_sort(a);
    lemma_sort_contains(a);
    lemma_churn_order();
    lemma_sort_sorted(a);
    let r = sort_seq(a);
    assert forall|k: int| 0 <= k < r.len() implies (#[trigger] r[k]).commit_count >= 1 by {
        assert(a.contains(r[k]));
        let m = choose|m: int| 0 <= m < a.len() && a[m] == r[k];
        assert(a[m].commit_count >= 1);
    }
}

} // verus!
