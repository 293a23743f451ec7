use vstd::prelude::*;

use super::history::CommitHash;
use super::language::{language_name, Language};
use super::tree::{file_count_of, language_table, size_of, FileTree};
use crate::order::{
    lemma_seq_lt_total, lemma_seq_lt_trans, order_total, order_transitive, seq_le, seq_lt, sort_by_key,
    sort_seq, views, Comparison, SortKey, SpecOrder,
};

verus! {

/// Number of files written in one language.
#[derive(Clone, Copy, PartialEq, Eq, Structural, Debug)]
pub struct LanguageStat {
    /// The language.
    pub language: Language,
    /// How many files use it.
    pub file_count: usize,
}

impl View for LanguageStat {
    type V = LanguageStat;

    open spec fn view(&self) -> LanguageStat {
        *self
    }
}

impl SpecOrder for LanguageStat {
    /// Most files first; equal counts by language name.
    open spec fn order_le(&self, other: &Self) -> bool {
        if self.file_count != other.file_count {
            self.file_count > other.file_count
        } else {
            seq_le(language_name(self.language), language_name(other.language))
        }
    }
}

/// Language counts order totally and transitively.
proof fn lemma_stat_order()
    ensures
        order_total::<LanguageStat>(),
        order_transitive::<LanguageStat>(),
{
    assert forall|a: LanguageStat, b: LanguageStat| #[trigger] a.order_le(&b) || b.order_le(&a) by {
        lemma_seq_lt_total(language_name(a.language), language_name(b.language));
    }
    assert forall|a: LanguageStat, b: LanguageStat, c: LanguageStat|
        #![trigger a.order_le(&b), b.order_le(&c)]
        a.order_le(&b) && b.order_le(&c) implies a.order_le(&c) by {
        let (na, nb, nc) = (
            language_name(a.language),
            language_name(b.language),
            language_name(c.language),
        );
        if seq_lt(na, nb) && seq_lt(nb, nc) {
            lemma_seq_lt_trans(na, nb, nc);
        }
    }
}

impl SortKey for LanguageStat {
    fn sort_le_exec(&self, other: &Self) -> (r: bool) {
        if self.file_count != other.file_count {
            self.file_count > other.file_count
        } else {
            match crate::order::compare_str(self.language.name(), other.language.name()) {
                Comparison::Greater => false,
                _ => true,
            }
        }
    }
}

/// Per-language counts as language statistics.
pub open spec fn stats_of(counts: Seq<(Language, usize)>) -> Seq<LanguageStat> {
    counts.map_values(|p: (Language, usize)| LanguageStat { language: p.0, file_count: p.1 })
}

/// The per-language file counts of a tree as statistics, most files first,
/// equal counts by language name.
pub open spec fn language_ranking(tree: FileTree) -> Seq<LanguageStat> {
    sort_seq(
        language_table(tree.root).map_values(
            |p: (Language, nat)| LanguageStat { language: p.0, file_count: p.1 as usize },
        ),
    )
}

/// Ranks per-language counts: most files first, equal counts by language
/// name.
pub fn language_stats(counts: &Vec<(Language, usize)>) -> (r: Vec<LanguageStat>)
    ensures
        r@ == sort_seq(stats_of(counts@)),
{
    let mut stats: Vec<LanguageStat> = Vec::new();
    let mut i: usize = 0;
    while i < counts.len()
        invariant
            i <= counts@.len(),
            stats@ == stats_of(counts@).take(i as int),
        decreases counts@.len() - i,
    {
        stats.push(LanguageStat { language: counts[i].0, file_count: counts[i].1 });
        assert(stats@ =~= stats_of(counts@).take(i + 1));
        i += 1;
    }
    assert(stats_of(counts@).take(counts@.len() as int) == stats_of(counts@));
    proof {
        lemma_stat_order();
    }
    let r = sort_by_key(stats);
    assert(views(r@) =~= r@);
    assert(views(stats_of(counts@)) =~= stats_of(counts@));
    r
}

/// Descriptive metadata of an opened project.
///
/// Everything here is derived from git and the file tree: no code analysis
/// and no AI. It is the payload the Repository Manager shows for a project.
#[derive(Clone, PartialEq, Eq, Debug)]
pub struct ProjectMetadata {
    /// Project name, usually the directory name.
    pub name: String,
    /// Absolute path of the working copy.
    pub local_path: String,
    /// Current branch name at HEAD.
    pub branch: String,
    /// Commit HEAD points to.
    pub head: CommitHash,
    /// Total number of commits reachable from HEAD.
    pub commit_count: usize,
    /// Total number of files in the working tree.
    pub file_count: usize,
    /// Total size of all files in bytes.
    pub total_size_bytes: u64,
    /// Per-language file counts, most files first.
    pub languages: Vec<LanguageStat>,
}

impl ProjectMetadata {
    /// Assembles metadata from the pieces the git adapter provides.
    ///
    /// `languages` is computed from `tree` and sorted by descending file
    /// count, with the language name as a tiebreaker for determinism.
    pub fn assemble(
        name: String,
        local_path: String,
        branch: String,
        head: CommitHash,
        commit_count: usize,
        tree: &FileTree,
    ) -> (r: ProjectMetadata)
        requires
            file_count_of(tree.root) <= usize::MAX,
            size_of(tree.root) <= u64::MAX,
        ensures
            r.name@ == name@,
            r.local_path@ == local_path@,
            r.branch@ == branch@,
            r.head == head,
            r.commit_count == commit_count,
            r.file_count == file_count_of(tree.root),
            r.total_size_bytes == size_of(tree.root),
            r.languages@ == language_ranking(*tree),
    {
        let counts = tree.language_counts();
        let languages = language_stats(&counts);
        assert(stats_of(counts@) =~= language_table(tree.root).map_values(
            |p: (Language, nat)| LanguageStat { language: p.0, file_count: p.1 as usize },
        ));
        ProjectMetadata {
            name,
            local_path,
            branch,
            head,
            commit_count,
            file_count: tree.file_count(),
            total_size_bytes: tree.total_size_bytes(),
            languages,
        }
    }
}

} // verus!
