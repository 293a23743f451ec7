use vstd::prelude::*;

use super::language::{all_languages, language_index, Language};

verus! {

/// A node in a repository file tree.
///
/// All paths are `/`-separated and relative to the repository root; the
/// root itself is a [`FileNode::Directory`] with an empty path.
#[derive(Debug)]
pub enum FileNode {
    /// A regular file.
    File {
        /// Path relative to the repository root.
        path: String,
        /// File size in bytes.
        size_bytes: u64,
        /// Detected language, [`Language::Unknown`] when out of scope.
        language: Language,
    },
    /// A directory containing further nodes.
    Directory {
        /// Path relative to the repository root.
        path: String,
        /// Direct children, ordered by name.
        children: Vec<FileNode>,
    },
}

/// Path of a node.
pub open spec fn node_path(n: FileNode) -> Seq<char> {
    match n {
        FileNode::File { path, .. } => path@,
        FileNode::Directory { path, .. } => path@,
    }
}

/// Number of files in a subtree; directories are not counted.
pub open spec fn file_count_of(n: FileNode) -> nat
    decreases n,
{
    match n {
        FileNode::File { .. } => 1,
        FileNode::Directory { children, .. } => files_in(children@),
    }
}

/// Number of files in a list of subtrees.
pub open spec fn files_in(cs: Seq<FileNode>) -> nat
    decreases cs,
{
    if cs.len() == 0 {
        0
    } else {
        files_in(cs.drop_last()) + file_count_of(cs.last())
    }
}

/// Number of directories in a subtree, the subtree's root included.
pub open spec fn dir_count_of(n: FileNode) -> nat
    decreases n,
{
    match n {
        FileNode::File { .. } => 0,
        FileNode::Directory { children, .. } => 1 + dirs_in(children@),
    }
}

/// Number of directories in a list of subtrees.
pub open spec fn dirs_in(cs: Seq<FileNode>) -> nat
    decreases cs,
{
    if cs.len() == 0 {
        0
    } else {
        dirs_in(cs.drop_last()) + dir_count_of(cs.last())
    }
}

/// Total size in bytes of the files of a subtree.
pub open spec fn size_of(n: FileNode) -> nat
    decreases n,
{
    match n {
        FileNode::File { size_bytes, .. } => size_bytes as nat,
        FileNode::Directory { children, .. } => sizes_in(children@),
    }
}

/// Total size in bytes of the files of a list of subtrees.
pub open spec fn sizes_in(cs: Seq<FileNode>) -> nat
    decreases cs,
{
    if cs.len() == 0 {
        0
    } else {
        sizes_in(cs.drop_last()) + size_of(cs.last())
    }
}

/// Number of files of language `l` in a subtree.
pub open spec fn lang_count_of(n: FileNode, l: Language) -> nat
    decreases n,
{
    match n {
        FileNode::File { language, .. } => if language == l {
            1
        } else {
            0
        },
        FileNode::Directory { children, .. } => lang_counts_in(children@, l),
    }
}

/// Number of files of language `l` in a list of subtrees.
pub open spec fn lang_counts_in(cs: Seq<FileNode>, l: Language) -> nat
    decreases cs,
{
    if cs.len() == 0 {
        0
    } else {
        lang_counts_in(cs.drop_last(), l) + lang_count_of(cs.last(), l)
    }
}

impl FileNode {
    /// Path of the node relative to the repository root.
    pub fn path(&self) -> (r: &str)
        ensures
            r@ == node_path(*self),
    {
        match self {
            FileNode::File { path, .. } => path.as_str(),
            FileNode::Directory { path, .. } => path.as_str(),
        }
    }

    /// Number of files in this subtree; directories are not counted.
    pub fn file_count(&self) -> (r: usize)
        requires
            file_count_of(*self) <= usize::MAX,
        ensures
            r == file_count_of(*self),
        decreases *self,
    {
        match self {
            FileNode::File { .. } => 1,
            FileNode::Directory { children, .. } => {
                let mut total: usize = 0;
                let mut i: usize = 0;
                while i < children.len()
                    invariant
                        i <= children@.len(),
                        total == files_in(children@.take(i as int)),
                        files_in(children@) <= usize::MAX,
                        *self matches FileNode::Directory { children: c, .. } && c == children,
                    decreases children@.len() - i,
                {
                    proof {
                        lemma_files_in_prefix(children@, i as int + 1);
                        assert(children@.take(i + 1).drop_last() == children@.take(i as int));
                        assert(decreases_to!(*self => children@[i as int]));
                    }
                    let n = children[i].file_count();
                    total = total + n;
                    i += 1;
                }
                assert(children@.take(children@.len() as int) == children@);
                total
            }
        }
    }
}

/// Counting a prefix gives no more than counting the whole list.
pub proof fn lemma_files_in_prefix(cs: Seq<FileNode>, k: int)
    requires
        0 <= k <= cs.len(),
    ensures
        files_in(cs.take(k)) <= files_in(cs),
        files_in(cs.take(k)) + (if k < cs.len() { file_count_of(cs[k]) } else { 0 }) <= files_in(cs),
    decreases cs.len(),
{
    if k < cs.len() {
        lemma_files_in_prefix(cs.drop_last(), k);
        if k < cs.len() - 1 {
            assert(cs.drop_last().take(k) == cs.take(k));
            assert(cs.drop_last()[k] == cs[k]);
        } else {
            assert(cs.drop_last() == cs.take(k));
        }
    } else {
        assert(cs.take(k) == cs);
    }
}

/// Summing a prefix of sizes gives no more than summing the whole list.
pub proof fn lemma_sizes_in_prefix(cs: Seq<FileNode>, k: int)
    requires
        0 <= k <= cs.len(),
    ensures
        sizes_in(cs.take(k)) + (if k < cs.len() { size_of(cs[k]) } else { 0 }) <= sizes_in(cs),
    decreases cs.len(),
{
    if k < cs.len() {
        lemma_sizes_in_prefix(cs.drop_last(), k);
        if k < cs.len() - 1 {
            assert(cs.drop_last().take(k) == cs.take(k));
            assert(cs.drop_last()[k] == cs[k]);
        } else {
            assert(cs.drop_last() == cs.take(k));
        }
    } else {
        assert(cs.take(k) == cs);
    }
}

/// Counting directories of a prefix gives no more than of the whole list.
pub proof fn lemma_dirs_in_prefix(cs: Seq<FileNode>, k: int)
    requires
        0 <= k <= cs.len(),
    ensures
        dirs_in(cs.take(k)) + (if k < cs.len() { dir_count_of(cs[k]) } else { 0 }) <= dirs_in(cs),
    decreases cs.len(),
{
    if k < cs.len() {
        lemma_dirs_in_prefix(cs.drop_last(), k);
        if k < cs.len() - 1 {
            assert(cs.drop_last().take(k) == cs.take(k));
            assert(cs.drop_last()[k] == cs[k]);
        } else {
            assert(cs.drop_last() == cs.take(k));
        }
    } else {
        assert(cs.take(k) == cs);
    }
}

/// A language's file count never exceeds the file count.
pub proof fn lemma_lang_count_le_files(n: FileNode, l: Language)
    ensures
        lang_count_of(n, l) <= file_count_of(n),
    decreases n,
{
    match n {
        FileNode::File { .. } => {},
        FileNode::Directory { children, .. } => {
            lemma_lang_counts_le_files(children@, l);
        },
    }
}

/// A language's file count in a list never exceeds its file count.
pub proof fn lemma_lang_counts_le_files(cs: Seq<FileNode>, l: Language)
    ensures
        lang_counts_in(cs, l) <= files_in(cs),
    decreases cs,
{
    if cs.len() > 0 {
        lemma_lang_counts_le_files(cs.drop_last(), l);
        lemma_lang_count_le_files(cs.last(), l);
    }
}

impl FileNode {
    /// Total size in bytes of all files in this subtree.
    pub fn total_size_bytes(&self) -> (r: u64)
        requires
            size_of(*self) <= u64::MAX,
        ensures
            r == size_of(*self),
        decreases *self,
    {
        match self {
            FileNode::File { size_bytes, .. } => *size_bytes,
            FileNode::Directory { children, .. } => {
                let mut total: u64 = 0;
                let mut i: usize = 0;
                while i < children.len()
                    invariant
                        i <= children@.len(),
                        total == sizes_in(children@.take(i as int)),
                        sizes_in(children@) <= u64::MAX,
                        *self matches FileNode::Directory { children: c, .. } && c == children,
                    decreases children@.len() - i,
                {
                    proof {
                        lemma_sizes_in_prefix(children@, i as int);
                        assert(children@.take(i + 1).drop_last() == children@.take(i as int));
                        assert(decreases_to!(*self => children@[i as int]));
                    }
                    let n = children[i].total_size_bytes();
                    total = total + n;
                    i += 1;
                }
                assert(children@.take(children@.len() as int) == children@);
                total
            }
        }
    }

    /// The file count, directory count and total size of this subtree, or
    /// none when one of them does not fit its integer type.
    pub fn checked_totals(&self) -> (r: Option<(usize, usize, u64)>)
        ensures
            match r {
                Some((f, d, s)) => f == file_count_of(*self) && d == dir_count_of(*self) && s == size_of(
                    *self,
                ),
                None => file_count_of(*self) > usize::MAX || dir_count_of(*self) > usize::MAX
                    || size_of(*self) > u64::MAX,
            },
        decreases *self,
    {
        match self {
            FileNode::File { size_bytes, .. } => Some((1, 0, *size_bytes)),
            FileNode::Directory { children, .. } => {
                let mut files: usize = 0;
                let mut dirs: usize = 1;
                let mut bytes: u64 = 0;
                let mut i: usize = 0;
                while i < children.len()
                    invariant
                        i <= children@.len(),
                        files == files_in(children@.take(i as int)),
                        dirs == 1 + dirs_in(children@.take(i as int)),
                        bytes == sizes_in(children@.take(i as int)),
                        *self matches FileNode::Directory { children: c, .. } && c == children,
                    decreases children@.len() - i,
                {
                    proof {
                        lemma_files_in_prefix(children@, i as int);
                        lemma_dirs_in_prefix(children@, i as int);
                        lemma_sizes_in_prefix(children@, i as int);
                        assert(children@.take(i + 1).drop_last() == children@.take(i as int));
                        assert(decreases_to!(*self => children@[i as int]));
                    }
                    let (f, d, b) = match children[i].checked_totals() {
                        Some(t) => t,
                        None => return None,
                    };
                    files = match files.checked_add(f) {
                        Some(n) => n,
                        None => return None,
                    };
                    dirs = match dirs.checked_add(d) {
                        Some(n) => n,
                        None => return None,
                    };
                    bytes = match bytes.checked_add(b) {
                        Some(n) => n,
                        None => return None,
                    };
                    i += 1;
                }
                assert(children@.take(children@.len() as int) == children@);
                Some((files, dirs, bytes))
            },
        }
    }

    /// Number of directories in this subtree, this node included.
    pub fn directory_count(&self) -> (r: usize)
        requires
            dir_count_of(*self) <= usize::MAX,
        ensures
            r == dir_count_of(*self),
        decreases *self,
    {
        match self {
            FileNode::File { .. } => 0,
            FileNode::Directory { children, .. } => {
                let mut total: usize = 1;
                let mut i: usize = 0;
                while i < children.len()
                    invariant
                        i <= children@.len(),
                        total == 1 + dirs_in(children@.take(i as int)),
                        1 + dirs_in(children@) <= usize::MAX,
                        *self matches FileNode::Directory { children: c, .. } && c == children,
                    decreases children@.len() - i,
                {
                    proof {
                        lemma_dirs_in_prefix(children@, i as int);
                        assert(children@.take(i + 1).drop_last() == children@.take(i as int));
                        assert(decreases_to!(*self => children@[i as int]));
                    }
                    let n = children[i].directory_count();
                    total = total + n;
                    i += 1;
                }
                assert(children@.take(children@.len() as int) == children@);
                total
            }
        }
    }

    /// Adds this subtree's per-language file counts to `counts`, indexed by
    /// `Language::index`.
    fn accumulate_language_counts(&self, counts: &mut Vec<usize>)
        requires
            old(counts)@.len() == 6,
            forall|i: int|
                0 <= i < 6 ==> old(counts)@[i] + lang_count_of(*self, all_languages()[i])
                    <= usize::MAX,
        ensures
            final(counts)@.len() == 6,
            forall|i: int|
                0 <= i < 6 ==> final(counts)@[i] == old(counts)@[i] + lang_count_of(
                    *self,
                    all_languages()[i],
                ),
        decreases *self,
    {
        match self {
            FileNode::File { language, .. } => {
                let k = language.index();
                counts.set(k, counts[k] + 1);
            },
            FileNode::Directory { children, .. } => {
                let ghost start = counts@;
                let mut i: usize = 0;
                while i < children.len()
                    invariant
                        i <= children@.len(),
                        counts@.len() == 6,
                        forall|j: int|
                            0 <= j < 6 ==> counts@[j] == start[j] + lang_counts_in(
                                children@.take(i as int),
                                all_languages()[j],
                            ),
                        forall|j: int|
                            0 <= j < 6 ==> start[j] + lang_counts_in(children@, all_languages()[j])
                                <= usize::MAX,
                        *self matches FileNode::Directory { children: c, .. } && c == children,
                    decreases children@.len() - i,
                {
                    proof {
                        assert(children@.take(i + 1).drop_last() == children@.take(i as int));
                        assert forall|j: int| 0 <= j < 6 implies lang_counts_in(
                            children@.take(i as int),
                            all_languages()[j],
                        ) + lang_count_of(children@[i as int], all_languages()[j])
                            <= lang_counts_in(children@, all_languages()[j]) by {
                            lemma_lang_counts_prefix(children@, i as int, all_languages()[j]);
                        }
                        assert(decreases_to!(*self => children@[i as int]));
                    }
                    children[i].accumulate_language_counts(counts);
                    i += 1;
                }
                assert(children@.take(children@.len() as int) == children@);
            },
        }
    }
}

/// Counting a language in a prefix gives no more than in the whole list.
pub proof fn lemma_lang_counts_prefix(cs: Seq<FileNode>, k: int, l: Language)
    requires
        0 <= k < cs.len(),
    ensures
        lang_counts_in(cs.take(k), l) + lang_count_of(cs[k], l) <= lang_counts_in(cs, l),
    decreases cs.len(),
{
    if k < cs.len() - 1 {
        lemma_lang_counts_prefix(cs.drop_last(), k, l);
        assert(cs.drop_last().take(k) == cs.take(k));
        assert(cs.drop_last()[k] == cs[k]);
        assert(cs.drop_last().take(k + 1) == cs.take(k + 1));
    } else {
        assert(cs.drop_last() == cs.take(k));
    }
}

/// The complete file tree of a repository at a given commit.
#[derive(Debug)]
pub struct FileTree {
    /// Root directory of the repository.
    pub root: FileNode,
}

/// The per-language file counts of a tree, in declaration order of the
/// languages, for the languages with at least one file: the first `k`
/// languages considered.
pub open spec fn language_table_upto(n: FileNode, k: int) -> Seq<(Language, nat)>
    decreases k,
{
    if k <= 0 {
        Seq::empty()
    } else {
        let l = all_languages()[k - 1];
        let rest = language_table_upto(n, k - 1);
        if lang_count_of(n, l) > 0 {
            rest.push((l, lang_count_of(n, l)))
        } else {
            rest
        }
    }
}

/// The per-language file counts of a subtree, for languages that occur,
/// in declaration order.
pub open spec fn language_table(n: FileNode) -> Seq<(Language, nat)> {
    language_table_upto(n, 6)
}

impl FileTree {
    /// The per-language file counts of the tree, as `language_counts`
    /// returns them.
    pub open spec fn language_counts_spec(&self) -> Seq<(Language, usize)> {
        language_table(self.root).map_values(|p: (Language, nat)| (p.0, p.1 as usize))
    }

    /// The tree's file count, directory count and total size, or none when
    /// one of them does not fit its integer type.
    pub fn checked_totals(&self) -> (r: Option<(usize, usize, u64)>)
        ensures
            match r {
                Some((f, d, s)) => f == file_count_of(self.root) && d == dir_count_of(self.root)
                    && s == size_of(self.root),
                None => file_count_of(self.root) > usize::MAX || dir_count_of(self.root) > usize::MAX
                    || size_of(self.root) > u64::MAX,
            },
    {
        self.root.checked_totals()
    }

    /// Total number of files in the tree.
    pub fn file_count(&self) -> (r: usize)
        requires
            file_count_of(self.root) <= usize::MAX,
        ensures
            r == file_count_of(self.root),
    {
        self.root.file_count()
    }

    /// Total size in bytes of all files in the tree.
    pub fn total_size_bytes(&self) -> (r: u64)
        requires
            size_of(self.root) <= u64::MAX,
        ensures
            r == size_of(self.root),
    {
        self.root.total_size_bytes()
    }

    /// Number of directories below the root.
    pub fn directory_count(&self) -> (r: usize)
        requires
            dir_count_of(self.root) <= usize::MAX,
        ensures
            r == dir_count_of(self.root) - (if self.root is Directory { 1int } else { 0 }),
    {
        let n = self.root.directory_count();
        match &self.root {
            FileNode::Directory { .. } => n - 1,
            FileNode::File { .. } => n,
        }
    }

    /// File count per language, for the languages that occur, in the
    /// languages' declaration order.
    pub fn language_counts(&self) -> (r: Vec<(Language, usize)>)
        requires
            file_count_of(self.root) <= usize::MAX,
        ensures
            r@ == self.language_counts_spec(),
            r@.len() == language_table(self.root).len(),
            forall|i: int|
                0 <= i < r@.len() ==> r@[i].0 == language_table(self.root)[i].0 && r@[i].1
                    == language_table(self.root)[i].1,
    {
        let mut counts: Vec<usize> = vec![0, 0, 0, 0, 0, 0];
        proof {
            assert forall|i: int| 0 <= i < 6 implies counts@[i] + lang_count_of(
                self.root,
                all_languages()[i],
            ) <= usize::MAX by {
                lemma_lang_count_le_files(self.root, all_languages()[i]);
            }
        }
        self.root.accumulate_language_counts(&mut counts);
        let mut r: Vec<(Language, usize)> = Vec::new();
        let mut k: usize = 0;
        while k < 6
            invariant
                k <= 6,
                counts@.len() == 6,
                forall|i: int|
                    0 <= i < 6 ==> counts@[i] == lang_count_of(self.root, all_languages()[i]),
                r@.len() == language_table_upto(self.root, k as int).len(),
                forall|i: int|
                    0 <= i < r@.len() ==> r@[i].0 == language_table_upto(self.root, k as int)[i].0
                        && r@[i].1 == language_table_upto(self.root, k as int)[i].1,
            decreases 6 - k,
        {
            let l = Language::at_index(k);
            if counts[k] > 0 {
                r.push((l, counts[k]));
            }
            k += 1;
        }
        assert(r@ =~= self.language_counts_spec());
        r
    }
}

// --- Laws -------------------------------------------------------------------------

/// Files of a subtree counted by language, over all languages.
pub open spec fn all_languages_total(n: FileNode) -> nat {
    lang_count_of(n, Language::Rust) + lang_count_of(n, Language::TypeScript) + lang_count_of(
        n,
        Language::JavaScript,
    ) + lang_count_of(n, Language::Python) + lang_count_of(n, Language::Go) + lang_count_of(
        n,
        Language::Unknown,
    )
}

/// Files of a list of subtrees counted by language, over all languages.
pub open spec fn all_languages_total_in(cs: Seq<FileNode>) -> nat {
    lang_counts_in(cs, Language::Rust) + lang_counts_in(cs, Language::TypeScript) + lang_counts_in(
        cs,
        Language::JavaScript,
    ) + lang_counts_in(cs, Language::Python) + lang_counts_in(cs, Language::Go) + lang_counts_in(
        cs,
        Language::Unknown,
    )
}

/// The counts of a language table, added up.
pub open spec fn table_total(t: Seq<(Language, nat)>) -> nat
    decreases t.len(),
{
    if t.len() == 0 {
        0
    } else {
        table_total(t.drop_last()) + t.last().1
    }
}

/// Each file has exactly one language.
proof fn lemma_languages_partition(n: FileNode)
    ensures
        all_languages_total(n) == file_count_of(n),
    decreases n,
{
    match n {
        FileNode::File { .. } => {},
        FileNode::Directory { children, .. } => {
            lemma_languages_partition_in(children@);
        },
    }
}

/// Each file of a list of subtrees has exactly one language.
proof fn lemma_languages_partition_in(cs: Seq<FileNode>)
    ensures
        all_languages_total_in(cs) == files_in(cs),
    decreases cs,
{
    if cs.len() > 0 {
        lemma_languages_partition_in(cs.drop_last());
        lemma_languages_partition(cs.last());
    }
}

/// The first `k` entries of the table add up to the counts of the first
/// `k` languages.
proof fn lemma_table_upto_total(n: FileNode, k: int)
    requires
        0 <= k <= 6,
    ensures
        table_total(language_table_upto(n, k)) == (if k >= 1 { lang_count_of(n, Language::Rust) } else { 0 })
            + (if k >= 2 { lang_count_of(n, Language::TypeScript) } else { 0 })
            + (if k >= 3 { lang_count_of(n, Language::JavaScript) } else { 0 })
            + (if k >= 4 { lang_count_of(n, Language::Python) } else { 0 })
            + (if k >= 5 { lang_count_of(n, Language::Go) } else { 0 })
            + (if k >= 6 { lang_count_of(n, Language::Unknown) } else { 0 }),
    decreases k,
{
    if k > 0 {
        lemma_table_upto_total(n, k - 1);
        let rest = language_table_upto(n, k - 1);
        let l = all_languages()[k - 1];
        if lang_count_of(n, l) > 0 {
            assert(language_table_upto(n, k).drop_last() == rest);
        }
    }
}

/// The language table of a tree accounts for every file: its counts add
/// up to the number of files, since each file has exactly one language
/// (`Unknown` included).
/// Each entry names a language with the number of files of that language,
/// a language occurs at most once, and every language with a file occurs.
pub proof fn law_language_counts_cover_files(n: FileNode)
    ensures
        table_total(language_table(n)) == file_count_of(n),
        forall|i: int| 0 <= i < language_table(n).len() ==> (#[trigger] language_table(n)[i]).1 > 0,
        forall|i: int|
            0 <= i < language_table(n).len() ==> (#[trigger] language_table(n)[i]).1 == lang_count_of(
                n,
                language_table(n)[i].0,
            ),
        forall|i: int, j: int|
            0 <= i < j < language_table(n).len() ==> (#[trigger] language_table(n)[i]).0
                != (#[trigger] language_table(n)[j]).0,
        forall|l: Language|
            #[trigger] lang_count_of(n, l) > 0 <==> exists|i: int|
                0 <= i < language_table(n).len() && (#[trigger] language_table(n)[i]).0 == l,
{
    lemma_table_upto_total(n, 6);
    lemma_languages_partition(n);
    lemma_table_positive(n, 6);
    lemma_table_entries(n, 6);
    let t = language_table(n);
    assert forall|l: Language| #[trigger] lang_count_of(n, l) > 0 <==> exists|i: int|
        0 <= i < t.len() && (#[trigger] t[i]).0 == l by {
        assert(0 <= language_index(l) < 6);
    }
}

/// The `k`-th language in declaration order has index `k`.
proof fn lemma_language_at(k: int)
    requires
        0 <= k < 6,
    ensures
        language_index(all_languages()[k]) == k,
{
    if k == 0 {
    } else if k == 1 {
    } else if k == 2 {
    } else if k == 3 {
    } else if k == 4 {
    } else {
    }
}

/// The entries of the table over the first `k` languages: each with its
/// count, in increasing index, and every such language with a file.
proof fn lemma_table_entries(n: FileNode, k: int)
    requires
        0 <= k <= 6,
    ensures
        forall|i: int|
            0 <= i < language_table_upto(n, k).len() ==> (#[trigger] language_table_upto(n, k)[i]).1
                == lang_count_of(n, language_table_upto(n, k)[i].0) && language_index(
                language_table_upto(n, k)[i].0,
            ) < k,
        forall|i: int, j: int|
            0 <= i < j < language_table_upto(n, k).len() ==> language_index(
                (#[trigger] language_table_upto(n, k)[i]).0,
            ) < language_index((#[trigger] language_table_upto(n, k)[j]).0),
        forall|l: Language|
            language_index(l) < k ==> (#[trigger] lang_count_of(n, l) > 0 <==> exists|i: int|
                0 <= i < language_table_upto(n, k).len() && (#[trigger] language_table_upto(n, k)[i]).0
                    == l),
    decreases k,
{
    if k > 0 {
        lemma_table_entries(n, k - 1);
        lemma_language_at(k - 1);
        let t = language_table_upto(n, k);
        let rest = language_table_upto(n, k - 1);
        let m = all_languages()[k - 1];
        if lang_count_of(n, m) > 0 {
            assert(t == rest.push((m, lang_count_of(n, m))));
            assert forall|i: int| 0 <= i < t.len() implies (#[trigger] t[i]).1 == lang_count_of(n, t[i].0)
                && language_index(t[i].0) < k by {
                if i < rest.len() {
                    assert(t[i] == rest[i]);
                }
            }
            assert forall|i: int, j: int| 0 <= i < j < t.len() implies language_index(
                (#[trigger] t[i]).0,
            ) < language_index((#[trigger] t[j]).0) by {
                assert(t[i] == rest[i]);
                if j < rest.len() {
                    assert(t[j] == rest[j]);
                }
            }
            assert forall|l: Language| language_index(l) < k implies (#[trigger] lang_count_of(n, l) > 0
                <==> exists|i: int| 0 <= i < t.len() && (#[trigger] t[i]).0 == l) by {
                if language_index(l) < k - 1 {
                    if lang_count_of(n, l) > 0 {
                        let i = choose|i: int| 0 <= i < rest.len() && (#[trigger] rest[i]).0 == l;
                        assert(t[i] == rest[i]);
                    }
                    if exists|i: int| 0 <= i < t.len() && (#[trigger] t[i]).0 == l {
                        let i = choose|i: int| 0 <= i < t.len() && (#[trigger] t[i]).0 == l;
                        if i < rest.len() {
                            assert(t[i] == rest[i]);
                        }
                    }
                } else {
                    assert(l == m);
                    assert(t[rest.len() as int].0 == l);
                }
            }
        } else {
            assert(t == rest);
            assert forall|l: Language| language_index(l) < k implies (#[trigger] lang_count_of(n, l) > 0
                <==> exists|i: int| 0 <= i < t.len() && (#[trigger] t[i]).0 == l) by {
                if language_index(l) == k - 1 {
                    assert(l == m);
                    if exists|i: int| 0 <= i < t.len() && (#[trigger] t[i]).0 == l {
                        let i = choose|i: int| 0 <= i < t.len() && (#[trigger] t[i]).0 == l;
                        assert(language_index(t[i].0) < k - 1);
                    }
                }
            }
        }
    }
}

/// Every entry of the table has a positive count.
proof fn lemma_table_positive(n: FileNode, k: int)
    ensures
        forall|i: int| 0 <= i < language_table_upto(n, k).len() ==> (#[trigger] language_table_upto(n, k)[i]).1 > 0,
    decreases k,
{
    if k > 0 {
        lemma_table_positive(n, k - 1);
        let t = language_table_upto(n, k);
        let rest = language_table_upto(n, k - 1);
        assert forall|i: int| 0 <= i < t.len() implies (#[trigger] t[i]).1 > 0 by {
            if i < rest.len() {
                assert(t[i] == rest[i]);
            }
        }
    }
}

} // verus!
