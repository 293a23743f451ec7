//! The computations of the use cases. The application performs the port
//! calls (git, analyzers, scanners, providers) and hands their results to
//! these functions.
use vstd::prelude::*;

use crate::architecture::{build, dependency_graph_spec, external_edges, internal_edges};
use crate::chat::{
    build_messages, messages_spec, relevant_spec, select_relevant, RelevantFile, RepoContext,
    DEFAULT_TOKEN_BUDGET,
};
use crate::entities::ast::{asts_view, strings_view};
use crate::entities::history::AuthorView;
use crate::entities::llm::MessageView;
use crate::entities::metadata::{language_stats, stats_of};
use crate::entities::scan::{top_dir_names, top_level_names};
use crate::entities::tree::{dir_count_of, file_count_of, language_table};
use crate::entities::{
    AuthorStats, ChatMessage, CodeIntelligenceReport, CommitHash, CommitInfo, Detection, FileAst,
    FileNode, FileTree, FolderSummary, GitSummary, Language, LanguageStat, Role, ScanReport,
};
use crate::intel::cycles::cycles_spec;
use crate::intel::dead_code::dead_code_spec;
use crate::intel::duplication::duplication_spec;
use crate::intel::{find_cycles, find_dead_code, find_duplication};
use crate::order::{
    is_sorted, lemma_seq_lt_total, lemma_seq_lt_trans, lemma_sort_contains, lemma_sort_sorted,
    lemma_sorted_take, order_total, order_transitive, seq_le, seq_lt, sort_by_key, sort_seq, views,
    Comparison, SortKey, SpecOrder,
};
use crate::paths::{normalize_path, path_str};
use crate::text::str_eq;
use crate::analysis::analyzer::{ast_of, grammar_of};
use crate::analysis::syntax::{parsed, rows_fit, ParseOutcome};
use crate::analysis::TreeSitterAnalyzer;
use crate::ports::{CodeAnalyzer, GitReader, ProjectScanner, RecentProjectsStore};
use crate::architecture::{call_graph_spec, folder_graph_spec, module_graph_spec};
use crate::entities::metadata::language_ranking;
use crate::entities::tree::size_of;
use crate::errors::{ChatError, GitError, ProjectError, RepoScanError, StoreError};
use crate::intel::search::search_spec;
use crate::intel::search_code;
use crate::text::utf8_len;
use crate::entities::{ArchitectureModel, ProjectMetadata, RecentProject, RepositoryId, Repository, RepositorySource, SearchHit};
use crate::entities::ast::AstView;
use crate::entities::SourceFile;
use crate::git::{language_of, language_of_path};

verus! {

/// Commits read for the contributor statistics of a scan.
pub const HISTORY_DEPTH: usize = 1000;

/// Maximum contributors reported.
pub const MAX_CONTRIBUTORS: usize = 10;

/// Files offered to the model as chat context.
pub const MAX_RELEVANT_FILES: usize = 6;

// --- Contributors ------------------------------------------------------------

/// Position of the author with `email` among `stats`.
pub open spec fn author_index(stats: Seq<AuthorView>, email: Seq<char>) -> Option<int> {
    if exists|k: int| 0 <= k < stats.len() && stats[k].email == email {
        Some(choose|k: int| 0 <= k < stats.len() && stats[k].email == email)
    } else {
        None
    }
}

/// Commits aggregated per author email, in order of each email's first
/// commit; an author keeps the name of that first commit.
pub open spec fn aggregate_authors(history: Seq<CommitInfo>) -> Seq<AuthorView>
    decreases history.len(),
{
    if history.len() == 0 {
        Seq::empty()
    } else {
        let r = aggregate_authors(history.drop_last());
        let c = history.last();
        match author_index(r, c.author_email@) {
            Some(k) => r.update(
                k,
                AuthorView {
                    name: r[k].name,
                    email: r[k].email,
                    commit_count: (r[k].commit_count + 1) as usize,
                },
            ),
            None => r.push(
                AuthorView { name: c.author_name@, email: c.author_email@, commit_count: 1 },
            ),
        }
    }
}

impl SpecOrder for AuthorView {
    /// Most commits first, then by name.
    open spec fn order_le(&self, other: &Self) -> bool {
        if self.commit_count != other.commit_count {
            self.commit_count > other.commit_count
        } else {
            seq_le(self.name, other.name)
        }
    }
}

impl SortKey for AuthorStats {
    fn sort_le_exec(&self, other: &Self) -> (r: bool) {
        if self.commit_count != other.commit_count {
            self.commit_count > other.commit_count
        } else {
            match crate::order::compare_str(&self.name, &other.name) {
                Comparison::Greater => false,
                _ => true,
            }
        }
    }
}

/// The top contributors of a history: authors by email, most commits first,
/// then by name, at most `MAX_CONTRIBUTORS`.
pub open spec fn contributors_spec(history: Seq<CommitInfo>) -> Seq<AuthorView> {
    let s = sort_seq(aggregate_authors(history));
    if s.len() <= MAX_CONTRIBUTORS {
        s
    } else {
        s.take(MAX_CONTRIBUTORS as int)
    }
}

/// Aggregates commits per author email into the top contributors.
pub fn contributors(history: &[CommitInfo]) -> (r: Vec<AuthorStats>)
    ensures
        views(r@) == contributors_spec(history@),
{
    let mut stats: Vec<AuthorStats> = Vec::new();
    let mut i: usize = 0;
    assert(history@.take(0) =~= Seq::<CommitInfo>::empty());
    while i < history.len()
        invariant
            i <= history@.len(),
            views(stats@) == aggregate_authors(history@.take(i as int)),
            forall|k: int| 0 <= k < stats@.len() ==> stats@[k].commit_count <= i,
            forall|a: int, b: int| 0 <= a < b < stats@.len() ==> stats@[a].email@ != stats@[b].email@,
        decreases history@.len() - i,
    {
        let c = &history[i];
        assert(history@.take(i + 1).drop_last() == history@.take(i as int));
        assert(history@.take(i + 1).last() == *c);
        let ghost sv = views(stats@);
        let mut k: usize = 0;
        while k < stats.len()
            invariant
                k <= stats@.len(),
                sv == views(stats@),
                forall|j: int| 0 <= j < k ==> sv[j].email != c.author_email@,
                forall|a: int, b: int| 0 <= a < b < sv.len() ==> sv[a].email != sv[b].email,
            ensures
                k <= stats@.len(),
                forall|j: int| 0 <= j < k ==> sv[j].email != c.author_email@,
                k < stats@.len() ==> sv[k as int].email == c.author_email@,
            decreases stats@.len() - k,
        {
            assert(sv[k as int] == stats@[k as int]@);
            if str_eq(&stats[k].email, &c.author_email) {
                break;
            }
            k += 1;
        }
        if k < stats.len() {
            assert(sv[k as int] == stats@[k as int]@);
            assert(author_index(sv, c.author_email@) == Some(k as int)) by {
                assert(sv[k as int].email == c.author_email@);
                let j = choose|j: int| 0 <= j < sv.len() && sv[j].email == c.author_email@;
                if j != k as int {
                    if j < k {
                        assert(sv[j].email != c.author_email@);
                    } else {
                        assert(sv[k as int].email != sv[j].email);
                    }
                }
            }
            let old = &stats[k];
            assert(old.commit_count <= i);
            let updated = AuthorStats {
                name: old.name.clone(),
                email: old.email.clone(),
                commit_count: old.commit_count + 1,
            };
            stats.set(k, updated);
            assert forall|a: int, b: int| 0 <= a < b < stats@.len() implies stats@[a].email@
                != stats@[b].email@ by {
                assert(sv[a] == stats@[a]@ || a == k);
                assert(stats@[a].email@ == sv[a].email);
                assert(stats@[b].email@ == sv[b].email);
            }
            assert(views(stats@) =~= sv.update(
                k as int,
                AuthorView {
                    name: sv[k as int].name,
                    email: sv[k as int].email,
                    commit_count: (sv[k as int].commit_count + 1) as usize,
                },
            ));
        } else {
            assert(author_index(sv, c.author_email@) is None);
            stats.push(
                AuthorStats {
                    name: c.author_name.clone(),
                    email: c.author_email.clone(),
                    commit_count: 1,
                },
            );
            assert(views(stats@) =~= sv.push(stats@.last()@));
            assert forall|a: int, b: int| 0 <= a < b < stats@.len() implies stats@[a].email@
                != stats@[b].email@ by {
                assert(stats@[a].email@ == views(stats@)[a].email);
                assert(stats@[b].email@ == views(stats@)[b].email);
            }
        }
        i += 1;
    }
    assert(history@.take(history@.len() as int) == history@);
    proof {
        lemma_author_order();
    }
    let mut sorted = sort_by_key(stats);
    let ghost s = views(sorted@);
    sorted.truncate(MAX_CONTRIBUTORS);
    proof {
        if s.len() > MAX_CONTRIBUTORS {
            assert(views(sorted@) =~= s.take(MAX_CONTRIBUTORS as int));
        } else {
            assert(views(sorted@) =~= s);
        }
    }
    sorted
}

// --- Repository snapshots -----------------------------------------------------

/// The normalized paths of the files of a subtree, in pre-order.
pub open spec fn files_of(n: FileNode) -> Seq<Seq<char>>
    decreases n,
{
    match n {
        FileNode::File { path, .. } => seq![normalize_path(path@)],
        FileNode::Directory { children, .. } => files_in(children@),
    }
}

/// The normalized paths of the files of a list of subtrees, in pre-order.
pub open spec fn files_in(cs: Seq<FileNode>) -> Seq<Seq<char>>
    decreases cs,
{
    if cs.len() == 0 {
        Seq::empty()
    } else {
        files_in(cs.drop_last()) + files_of(cs.last())
    }
}

/// Appends the file paths of a subtree, in pre-order.
fn collect_paths(node: &FileNode, paths: &mut Vec<String>)
    ensures
        strings_view(final(paths)@) == strings_view(old(paths)@) + files_of(*node),
    decreases *node,
{
    match node {
        FileNode::File { path, .. } => {
            let ghost before = strings_view(paths@);
            paths.push(path_str(path));
            assert(strings_view(paths@) =~= before + seq![normalize_path(path@)]);
        },
        FileNode::Directory { children, .. } => {
            let ghost start = strings_view(paths@);
            let mut i: usize = 0;
            assert(children@.take(0) =~= Seq::<FileNode>::empty());
            assert(start + files_in(children@.take(0)) =~= start);
            while i < children.len()
                invariant
                    i <= children@.len(),
                    *node matches FileNode::Directory { children: c, .. } && c == children,
                    strings_view(paths@) == start + files_in(children@.take(i as int)),
                decreases children@.len() - i,
            {
                assert(children@.take(i + 1).drop_last() == children@.take(i as int));
                assert(children@.take(i + 1).last() == children@[i as int]);
                proof {
                    assert(decreases_to!(*node => children@[i as int]));
                }
                collect_paths(&children[i], paths);
                assert(strings_view(paths@) =~= start + files_in(children@.take(i + 1)));
                i += 1;
            }
            assert(children@.take(children@.len() as int) == children@);
        },
    }
}

/// The paths of all files of a tree, in pre-order.
pub fn file_paths(tree: &FileTree) -> (r: Vec<String>)
    ensures
        strings_view(r@) == files_of(tree.root),
{
    let mut paths: Vec<String> = Vec::new();
    assert(strings_view(paths@) =~= Seq::<Seq<char>>::empty());
    collect_paths(&tree.root, &mut paths);
    assert(strings_view(paths@) =~= files_of(tree.root));
    paths
}

// --- Parsing a repository -------------------------------------------------------

/// The paths of the files of a subtree whose language the analyzer
/// recognizes, as stored, in pre-order.
pub open spec fn supported_of(n: FileNode) -> Seq<Seq<char>>
    decreases n,
{
    match n {
        FileNode::File { path, .. } => if language_of_path(path@) != Language::Unknown {
            seq![path@]
        } else {
            Seq::empty()
        },
        FileNode::Directory { children, .. } => supported_in(children@),
    }
}

/// The recognized file paths of a list of subtrees, in pre-order.
pub open spec fn supported_in(cs: Seq<FileNode>) -> Seq<Seq<char>>
    decreases cs,
{
    if cs.len() == 0 {
        Seq::empty()
    } else {
        supported_in(cs.drop_last()) + supported_of(cs.last())
    }
}

/// Appends the recognized file paths of a subtree, in pre-order.
fn collect_supported(node: &FileNode, paths: &mut Vec<String>)
    ensures
        strings_view(final(paths)@) == strings_view(old(paths)@) + supported_of(*node),
    decreases *node,
{
    match node {
        FileNode::File { path, .. } => {
            let ghost before = strings_view(paths@);
            if language_of(path) != Language::Unknown {
                paths.push(path.clone());
                assert(strings_view(paths@) =~= before + seq![path@]);
            } else {
                assert(strings_view(paths@) =~= before + Seq::<Seq<char>>::empty());
            }
        },
        FileNode::Directory { children, .. } => {
            let ghost start = strings_view(paths@);
            let mut i: usize = 0;
            assert(start + supported_in(children@.take(0)) =~= start);
            while i < children.len()
                invariant
                    i <= children@.len(),
                    *node matches FileNode::Directory { children: c, .. } && c == children,
                    strings_view(paths@) == start + supported_in(children@.take(i as int)),
                decreases children@.len() - i,
            {
                assert(children@.take(i + 1).drop_last() == children@.take(i as int));
                assert(children@.take(i + 1).last() == children@[i as int]);
                proof {
                    assert(decreases_to!(*node => children@[i as int]));
                }
                collect_supported(&children[i], paths);
                assert(strings_view(paths@) =~= start + supported_in(children@.take(i + 1)));
                i += 1;
            }
            assert(children@.take(children@.len() as int) == children@);
        },
    }
}

/// The files of a tree that the analyzer can parse, in pre-order.
pub fn supported_files(tree: &FileTree) -> (r: Vec<String>)
    ensures
        strings_view(r@) == supported_of(tree.root),
{
    let mut paths: Vec<String> = Vec::new();
    assert(strings_view(paths@) =~= Seq::<Seq<char>>::empty());
    collect_supported(&tree.root, &mut paths);
    assert(strings_view(paths@) =~= supported_of(tree.root));
    paths
}

/// The model parsing yields for a file, or none when parsing fails.
pub open spec fn parsed_model(path: Seq<char>, content: Seq<char>) -> Option<AstView> {
    match grammar_of(path) {
        None => None,
        Some(g) => match parsed(g, content) {
            ParseOutcome::Tree(root) => if rows_fit(root) {
                Some(ast_of(path, language_of_path(path), g, root))
            } else {
                None
            },
            _ => None,
        },
    }
}

/// The models of the files that parse, with their normalized paths and
/// contents, in order.
pub open spec fn parsed_sources(files: Seq<SourceFile>) -> (Seq<AstView>, Seq<(Seq<char>, Seq<char>)>)
    decreases files.len(),
{
    if files.len() == 0 {
        (Seq::empty(), Seq::empty())
    } else {
        let (a, c) = parsed_sources(files.drop_last());
        let f = files.last();
        match parsed_model(f.path@, f.content@) {
            Some(m) => (a.push(m), c.push((normalize_path(f.path@), f.content@))),
            None => (a, c),
        }
    }
}

/// Parses the files read from a repository; files that fail to parse are
/// skipped. Returns the models and the `(path, content)` pairs of the
/// parsed files.
pub fn parse_sources(analyzer: &TreeSitterAnalyzer, files: &[SourceFile]) -> (r: (
    Vec<FileAst>,
    Vec<(String, String)>,
))
    ensures
        (asts_view(r.0@), views(r.1@)) == parsed_sources(files@),
{
    let mut asts: Vec<FileAst> = Vec::new();
    let mut contents: Vec<(String, String)> = Vec::new();
    let mut i: usize = 0;
    assert(files@.take(0) =~= Seq::<SourceFile>::empty());
    while i < files.len()
        invariant
            i <= files@.len(),
            (asts_view(asts@), views(contents@)) == parsed_sources(files@.take(i as int)),
        decreases files@.len() - i,
    {
        let f = &files[i];
        assert(files@.take(i + 1).drop_last() == files@.take(i as int));
        assert(files@.take(i + 1).last() == *f);
        let ghost a0 = asts_view(asts@);
        let ghost c0 = views(contents@);
        match analyzer.parse(f) {
            Ok(ast) => {
                asts.push(ast);
                contents.push((path_str(&f.path), f.content.clone()));
                assert(asts_view(asts@) =~= a0.push(asts@.last()@));
                assert(views(contents@) =~= c0.push((normalize_path(f.path@), f.content@)));
            },
            Err(_) => {},
        }
        i += 1;
    }
    assert(files@.take(files@.len() as int) == files@);
    (asts, contents)
}

/// The content of the last user message, or nothing.
pub open spec fn question_of(history: Seq<MessageView>) -> Seq<char>
    decreases history.len(),
{
    if history.len() == 0 {
        Seq::empty()
    } else if history.last().role == Role::User {
        history.last().content
    } else {
        question_of(history.drop_last())
    }
}

/// The question a conversation asks: its last user message.
pub fn latest_question(history: &[ChatMessage]) -> (r: String)
    ensures
        r@ == question_of(views(history@)),
{
    let ghost hv = views(history@);
    let mut i: usize = history.len();
    assert(hv.take(i as int) == hv);
    while i > 0
        invariant
            i <= history@.len(),
            hv == views(history@),
            question_of(hv) == question_of(hv.take(i as int)),
        decreases i,
    {
        assert(hv.take(i as int).drop_last() == hv.take(i - 1));
        assert(hv.take(i as int).last() == history@[i - 1]@);
        if history[i - 1].role == Role::User {
            return history[i - 1].content.clone();
        }
        i -= 1;
    }
    String::new()
}

/// The file counts per language of a tree, most files first, equal counts
/// by language name.
pub fn ranked_language_counts(tree: &FileTree) -> (r: Vec<(Language, usize)>)
    requires
        file_count_of(tree.root) <= usize::MAX,
    ensures
        r@ == sort_seq(stats_of(tree.language_counts_spec())).map_values(
            |s: LanguageStat| (s.language, s.file_count),
        ),
{
    let counts = tree.language_counts();
    let stats = language_stats(&counts);
    let mut r: Vec<(Language, usize)> = Vec::new();
    let mut i: usize = 0;
    while i < stats.len()
        invariant
            i <= stats@.len(),
            r@ == stats@.take(i as int).map_values(|s: LanguageStat| (s.language, s.file_count)),
        decreases stats@.len() - i,
    {
        r.push((stats[i].language, stats[i].file_count));
        assert(r@ =~= stats@.take(i + 1).map_values(
            |s: LanguageStat| (s.language, s.file_count),
        ));
        i += 1;
    }
    assert(stats@.take(stats@.len() as int) == stats@);
    r
}

// --- Reports -------------------------------------------------------------------

/// Assembles a scan report from what the git reader and the project scanner
/// returned. `history` is newest first; its first commit is the last one.
pub fn scan_report(
    tree: &FileTree,
    branch: String,
    head: CommitHash,
    commit_count: usize,
    history: Vec<CommitInfo>,
    detection: Detection,
) -> (r: ScanReport)
    requires
        file_count_of(tree.root) <= usize::MAX,
        dir_count_of(tree.root) <= usize::MAX,
    ensures
        r.languages@ == sort_seq(stats_of(tree.language_counts_spec())),
        r.frameworks == detection.frameworks,
        r.dependencies == detection.dependencies,
        r.structure.total_files == file_count_of(tree.root),
        r.structure.total_directories == dir_count_of(tree.root) - (if tree.root is Directory {
            1int
        } else {
            0
        }),
        strings_view(r.structure.top_level_dirs@) == sort_seq(top_dir_names(tree.root)),
        strings_view(r.structure.notable@) == crate::entities::scan::notable_of(
            sort_seq(top_dir_names(tree.root)),
        ),
        r.git.branch@ == branch@,
        r.git.head == head,
        r.git.commit_count == commit_count,
        r.git.last_commit == (if history@.len() > 0 {
            Some(history@[0])
        } else {
            None
        }),
        views(r.git.contributors@) == contributors_spec(history@),
{
    let counts = tree.language_counts();
    let languages = language_stats(&counts);
    let structure = FolderSummary::from_tree(tree);
    let contributors = contributors(&history);
    let mut history = history;
    let last_commit = if history.len() > 0 {
        Some(history.remove(0))
    } else {
        None
    };
    ScanReport {
        languages,
        frameworks: detection.frameworks,
        dependencies: detection.dependencies,
        structure,
        git: GitSummary { branch, head, commit_count, last_commit, contributors },
    }
}

/// The code-intelligence report of parsed files: the cycles of their
/// dependency graph, their dead functions and the duplicated blocks of the
/// files' `(path, content)` pairs.
pub fn intelligence_report(asts: &[FileAst], tree: &FileTree, contents: &[(String, String)]) -> (r:
    CodeIntelligenceReport)
    ensures
        views(r.cyclic_dependencies@) == cycles_spec(
            dependency_graph_spec(
                asts_view(asts@),
                internal_edges(asts_view(asts@), asts_view(asts@)),
                external_edges(asts_view(asts@), asts_view(asts@)),
            ),
        ),
        views(r.dead_code@) == dead_code_spec(
            crate::architecture::call_graph_spec(asts_view(asts@)),
            asts_view(asts@),
        ),
        views(r.duplication@) == duplication_spec(views(contents@)),
{
    let model = build(asts, tree);
    CodeIntelligenceReport {
        cyclic_dependencies: find_cycles(&model.dependency_graph),
        dead_code: find_dead_code(&model.call_graph, asts),
        duplication: find_duplication(contents),
    }
}

/// The chat context of a repository: its name and branch, its languages
/// most files first, its sorted top-level directories and the files read
/// for the question.
pub fn chat_context(
    name: String,
    branch: String,
    tree: &FileTree,
    relevant_files: Vec<RelevantFile>,
) -> (r: RepoContext)
    requires
        file_count_of(tree.root) <= usize::MAX,
    ensures
        r.name@ == name@,
        r.branch@ == branch@,
        r.languages@ == sort_seq(stats_of(tree.language_counts_spec())).map_values(
            |s: LanguageStat| (s.language, s.file_count),
        ),
        strings_view(r.top_level_dirs@) == sort_seq(top_dir_names(tree.root)),
        r.relevant_files == relevant_files,
{
    RepoContext {
        name,
        branch,
        languages: ranked_language_counts(tree),
        top_level_dirs: top_level_names(&tree.root),
        relevant_files,
    }
}

// --- Use cases -------------------------------------------------------------------

/// Whether `files` were read at the paths the analyzer supports in the tree
/// `root`, in order, less those that could not be read.
pub open spec fn read_from(files: Seq<SourceFile>, root: FileNode) -> bool {
    exists|keep: Seq<bool>| #[trigger] source_paths(files) == selected_by(supported_of(root), keep)
}

/// The paths of the source files, in order.
pub open spec fn source_paths(files: Seq<SourceFile>) -> Seq<Seq<char>> {
    files.map_values(|f: SourceFile| f.path@)
}

/// Whether `m` is the architecture model of the parsed files `asts` and the
/// tree `root`.
pub open spec fn is_model_of(m: ArchitectureModel, asts: Seq<AstView>, root: FileNode) -> bool {
    &&& m.folder_graph@ == folder_graph_spec(root)
    &&& m.dependency_graph@ == dependency_graph_spec(asts, internal_edges(asts, asts), external_edges(asts, asts))
    &&& m.module_graph@ == module_graph_spec(internal_edges(asts, asts))
    &&& m.call_graph@ == call_graph_spec(asts)
}

/// Whether `r` is the code-intelligence report of the parsed files `asts`
/// and their `(path, content)` pairs.
pub open spec fn is_report_of(r: CodeIntelligenceReport, asts: Seq<AstView>, contents: Seq<(Seq<char>, Seq<char>)>) -> bool {
    &&& views(r.cyclic_dependencies@) == cycles_spec(
        dependency_graph_spec(asts, internal_edges(asts, asts), external_edges(asts, asts)),
    )
    &&& views(r.dead_code@) == dead_code_spec(crate::architecture::call_graph_spec(asts), asts)
    &&& views(r.duplication@) == duplication_spec(contents)
}

/// Reads the files of `tree` that the analyzer supports; files that cannot
/// be read are skipped.
fn read_supported<G: GitReader>(git: &G, repository: &Repository, tree: &FileTree) -> (r: Vec<SourceFile>)
    ensures
        read_from(r@, tree.root),
{
    let paths = supported_files(tree);
    let ghost sv = strings_view(paths@);
    let mut files: Vec<SourceFile> = Vec::new();
    let ghost mut keep: Seq<bool> = Seq::empty();
    let mut i: usize = 0;
    assert(source_paths(files@) =~= selected_by(sv.take(0), keep));
    while i < paths.len()
        invariant
            i <= paths@.len(),
            sv == strings_view(paths@),
            keep.len() == i,
            source_paths(files@) == selected_by(sv.take(i as int), keep),
        decreases paths@.len() - i,
    {
        let ghost before = files@;
        let ghost prior = keep;
        assert(sv.take(i + 1).drop_last() =~= sv.take(i as int));
        assert(sv.take(i + 1).last() == paths@[i as int]@);
        match git.read_file(repository, &paths[i]) {
            Ok(content) => {
                files.push(SourceFile { path: paths[i].clone(), content });
                proof {
                    keep = keep.push(true);
                    assert(keep.drop_last() =~= prior);
                    assert(source_paths(files@) =~= source_paths(before).push(paths@[i as int]@));
                }
            },
            Err(_) => {
                proof {
                    keep = keep.push(false);
                    assert(keep.drop_last() =~= prior);
                }
            },
        }
        i += 1;
    }
    assert(sv.take(paths@.len() as int) =~= sv);
    assert(source_paths(files@) == selected_by(supported_of(tree.root), keep));
    files
}

/// Builds the architecture graphs of a repository.
pub struct AnalyzeArchitecture<G: GitReader> {
    /// Git access.
    pub git: G,
    /// The analyzer that parses the repository's files.
    pub analyzer: TreeSitterAnalyzer,
}

impl<G: GitReader> AnalyzeArchitecture<G> {
    /// A use case reading through `git` and parsing with `analyzer`.
    pub fn new(git: G, analyzer: TreeSitterAnalyzer) -> (r: Self)
        ensures
            r.git == git,
    {
        AnalyzeArchitecture { git, analyzer }
    }

    /// Opens the repository, parses the files the analyzer supports and
    /// builds the four graphs. The model is that of the files that could
    /// be read and parsed, over the repository's tree; an error opening the
    /// repository or reading its tree is passed on.
    pub fn execute(&self, source: RepositorySource) -> (r: Result<ArchitectureModel, GitError>)
        ensures
            r matches Ok(m) ==> exists|t: FileTree, files: Seq<SourceFile>|
                read_from(files, t.root) && #[trigger] is_model_of(m, parsed_sources(files).0, t.root),
    {
        let repository = self.git.open(&source)?;
        let tree = self.git.file_tree(&repository)?;
        let files = read_supported(&self.git, &repository, &tree);
        let (asts, _) = parse_sources(&self.analyzer, &files);
        let model = build(&asts, &tree);
        let result: Result<ArchitectureModel, GitError> = Ok(model);
        assert(is_model_of(result->Ok_0, parsed_sources(files@).0, tree.root));
        result
    }
}

/// Finds cycles, dead code and duplication in a repository.
pub struct AnalyzeCodeIntelligence<G: GitReader> {
    /// Git access.
    pub git: G,
    /// The analyzer that parses the repository's files.
    pub analyzer: TreeSitterAnalyzer,
}

impl<G: GitReader> AnalyzeCodeIntelligence<G> {
    /// A use case reading through `git` and parsing with `analyzer`.
    pub fn new(git: G, analyzer: TreeSitterAnalyzer) -> (r: Self)
        ensures
            r.git == git,
    {
        AnalyzeCodeIntelligence { git, analyzer }
    }

    /// Opens the repository, parses the files the analyzer supports and
    /// reports the cycles of their dependency graph, their dead functions
    /// and their duplicated blocks.
    pub fn execute(&self, source: RepositorySource) -> (r: Result<CodeIntelligenceReport, GitError>)
        ensures
            r matches Ok(rep) ==> exists|t: FileTree, files: Seq<SourceFile>|
                #[trigger] read_from(files, t.root) && is_report_of(
                    rep,
                    parsed_sources(files).0,
                    parsed_sources(files).1,
                ),
    {
        let repository = self.git.open(&source)?;
        let tree = self.git.file_tree(&repository)?;
        let files = read_supported(&self.git, &repository, &tree);
        let (asts, contents) = parse_sources(&self.analyzer, &files);
        let report = intelligence_report(&asts, &tree, &contents);
        assert(is_report_of(report, parsed_sources(files@).0, parsed_sources(files@).1));
        assert(read_from(files@, tree.root));
        Ok(report)
    }
}

/// Searches a repository's files and symbols.
pub struct SearchCode<G: GitReader> {
    /// Git access.
    pub git: G,
    /// The analyzer that parses the repository's files.
    pub analyzer: TreeSitterAnalyzer,
}

impl<G: GitReader> SearchCode<G> {
    /// A use case reading through `git` and parsing with `analyzer`.
    pub fn new(git: G, analyzer: TreeSitterAnalyzer) -> (r: Self)
        ensures
            r.git == git,
    {
        SearchCode { git, analyzer }
    }

    /// Opens the repository, parses the files the analyzer supports and
    /// ranks their files and symbols for `query`.
    pub fn execute(&self, source: RepositorySource, query: String) -> (r: Result<Vec<SearchHit>, GitError>)
        requires
            utf8_len(query@) <= isize::MAX,
        ensures
            r matches Ok(hits) ==> exists|t: FileTree, files: Seq<SourceFile>|
                #[trigger] read_from(files, t.root) && views(hits@) == search_spec(
                    query@,
                    parsed_sources(files).0,
                ),
    {
        let repository = self.git.open(&source)?;
        let tree = self.git.file_tree(&repository)?;
        let files = read_supported(&self.git, &repository, &tree);
        let (asts, _) = parse_sources(&self.analyzer, &files);
        let hits = search_code(&query, &asts);
        assert(read_from(files@, tree.root));
        Ok(hits)
    }
}

/// Opens a project and records it as recently opened.
pub struct OpenProject<G: GitReader, R: RecentProjectsStore> {
    /// Git access.
    pub git: G,
    /// The recent-projects list.
    pub recent: R,
}

/// Whether `m` summarizes the tree `t`: its file count, size and language
/// ranking.
pub open spec fn summarizes(m: ProjectMetadata, t: FileTree) -> bool {
    &&& m.file_count == file_count_of(t.root)
    &&& m.total_size_bytes == size_of(t.root)
    &&& m.languages@ == language_ranking(t)
}

/// The error of a tree too large to summarize.
fn too_large() -> (r: GitError)
    ensures
        r matches GitError::Backend(m) && m@ == "repository too large to summarize"@,
{
    GitError::Backend("repository too large to summarize".to_string())
}

impl<G: GitReader, R: RecentProjectsStore> OpenProject<G, R> {
    /// A use case reading through `git` and recording in `recent`.
    pub fn new(git: G, recent: R) -> (r: Self)
        ensures
            r.git == git,
            r.recent == recent,
    {
        OpenProject { git, recent }
    }

    /// Opens the repository, summarizes it and records it as recently
    /// opened (the store stamps the time). The metadata names the
    /// repository and summarizes its tree at HEAD; a tree whose counts do
    /// not fit the machine's integers is refused.
    pub fn execute(&self, source: RepositorySource) -> (r: Result<ProjectMetadata, ProjectError>)
        ensures
            r matches Ok(m) ==> exists|t: FileTree| #[trigger] summarizes(m, t),
    {
        let repository = match self.git.open(&source) {
            Ok(x) => x,
            Err(e) => return Err(ProjectError::Git(e)),
        };
        let branch = match self.git.current_branch(&repository) {
            Ok(x) => x,
            Err(e) => return Err(ProjectError::Git(e)),
        };
        let tree = match self.git.file_tree(&repository) {
            Ok(x) => x,
            Err(e) => return Err(ProjectError::Git(e)),
        };
        let commit_count = match self.git.commit_count(&repository) {
            Ok(x) => x,
            Err(e) => return Err(ProjectError::Git(e)),
        };
        if tree.checked_totals().is_none() {
            return Err(ProjectError::Git(too_large()));
        }
        let metadata = ProjectMetadata::assemble(
            repository.name.clone(),
            repository.local_path.clone(),
            branch,
            repository.head.clone(),
            commit_count,
            &tree,
        );
        let recent = RecentProject {
            id: repository.id,
            name: metadata.name.clone(),
            source,
            local_path: metadata.local_path.clone(),
            last_opened: 0,
        };
        match self.recent.add(&recent) {
            Ok(()) => {},
            Err(e) => return Err(ProjectError::Store(e)),
        }
        let result: Result<ProjectMetadata, ProjectError> = Ok(metadata);
        assert(summarizes(result->Ok_0, tree));
        result
    }
}

/// Lists the recently opened projects.
pub struct ListRecentProjects<R: RecentProjectsStore> {
    /// The recent-projects list.
    pub recent: R,
}

impl<R: RecentProjectsStore> ListRecentProjects<R> {
    /// A use case reading `recent`.
    pub fn new(recent: R) -> (r: Self)
        ensures
            r.recent == recent,
    {
        ListRecentProjects { recent }
    }

    /// The projects, as the store lists them.
    pub fn execute(&self) -> Result<Vec<RecentProject>, StoreError> {
        self.recent.list()
    }
}

/// Forgets a recently opened project.
pub struct RemoveRecentProject<R: RecentProjectsStore> {
    /// The recent-projects list.
    pub recent: R,
}

impl<R: RecentProjectsStore> RemoveRecentProject<R> {
    /// A use case updating `recent`.
    pub fn new(recent: R) -> (r: Self)
        ensures
            r.recent == recent,
    {
        RemoveRecentProject { recent }
    }

    /// Removes the project with `id` from the store.
    pub fn execute(&self, id: &RepositoryId) -> Result<(), StoreError> {
        self.recent.remove(id)
    }
}

/// Scans a repository: languages, frameworks, dependencies, structure and
/// git activity.
pub struct ScanRepository<G: GitReader, S: ProjectScanner> {
    /// Git access.
    pub git: G,
    /// The manifest scanner.
    pub scanner: S,
}

/// Whether `rep` is the scan report of the tree `t`, the history `h` (newest
/// first) and the detection `d`.
pub open spec fn is_scan_of(rep: ScanReport, t: FileTree, h: Seq<CommitInfo>, d: Detection) -> bool {
    &&& rep.languages@ == sort_seq(stats_of(t.language_counts_spec()))
    &&& rep.frameworks == d.frameworks
    &&& rep.dependencies == d.dependencies
    &&& rep.structure.total_files == file_count_of(t.root)
    &&& strings_view(rep.structure.top_level_dirs@) == sort_seq(top_dir_names(t.root))
    &&& rep.git.last_commit == (if h.len() > 0 { Some(h[0]) } else { None })
    &&& views(rep.git.contributors@) == contributors_spec(h)
}

impl<G: GitReader, S: ProjectScanner> ScanRepository<G, S> {
    /// A use case reading through `git` and `scanner`.
    pub fn new(git: G, scanner: S) -> (r: Self)
        ensures
            r.git == git,
            r.scanner == scanner,
    {
        ScanRepository { git, scanner }
    }

    /// Opens the repository, reads its tree, branch, commit count, the
    /// latest `HISTORY_DEPTH` commits and its manifests, and assembles the
    /// report; a tree whose counts do not fit the machine's integers is
    /// refused.
    pub fn execute(&self, source: RepositorySource) -> (r: Result<ScanReport, RepoScanError>)
        ensures
            r matches Ok(rep) ==> exists|t: FileTree, h: Seq<CommitInfo>, d: Detection|
                #[trigger] is_scan_of(rep, t, h, d),
    {
        let repository = match self.git.open(&source) {
            Ok(x) => x,
            Err(e) => return Err(RepoScanError::Git(e)),
        };
        let tree = match self.git.file_tree(&repository) {
            Ok(x) => x,
            Err(e) => return Err(RepoScanError::Git(e)),
        };
        let branch = match self.git.current_branch(&repository) {
            Ok(x) => x,
            Err(e) => return Err(RepoScanError::Git(e)),
        };
        let commit_count = match self.git.commit_count(&repository) {
            Ok(x) => x,
            Err(e) => return Err(RepoScanError::Git(e)),
        };
        let history = match self.git.history(&repository, HISTORY_DEPTH) {
            Ok(x) => x,
            Err(e) => return Err(RepoScanError::Git(e)),
        };
        let detection = match self.scanner.detect(&repository) {
            Ok(x) => x,
            Err(e) => return Err(RepoScanError::Scan(e)),
        };
        if tree.checked_totals().is_none() {
            return Err(RepoScanError::Git(too_large()));
        }
        let ghost h = history@;
        let ghost d = detection;
        let report = scan_report(&tree, branch, repository.head, commit_count, history, detection);
        assert(is_scan_of(report, tree, h, d));
        Ok(report)
    }
}

/// Whether `ms` are the messages a repository chat sends for `history`
/// about the tree `t`: the prompt built from a context that describes `t`,
/// whose files are the paths most relevant to the latest question, in
/// order, less those that could not be read.
pub open spec fn is_chat_of(ms: Seq<MessageView>, ctx: RepoContext, t: FileTree, history: Seq<MessageView>) -> bool {
    &&& ms == messages_spec(ctx, history, DEFAULT_TOKEN_BUDGET)
    &&& ctx.languages@ == sort_seq(stats_of(t.language_counts_spec())).map_values(
        |s: LanguageStat| (s.language, s.file_count),
    )
    &&& strings_view(ctx.top_level_dirs@) == sort_seq(top_dir_names(t.root))
    &&& exists|keep: Seq<bool>|
        #[trigger] read_paths(ctx.relevant_files@) == selected_by(
            relevant_spec(files_of(t.root), question_of(history), MAX_RELEVANT_FILES),
            keep,
        )
}

/// The paths of the files read, in order.
pub open spec fn read_paths(files: Seq<RelevantFile>) -> Seq<Seq<char>> {
    files.map_values(|f: RelevantFile| f.path@)
}

/// The elements of `s` whose flag in `keep` is set, in order (`s` and `keep`
/// taken from the back together).
pub open spec fn selected_by<A>(s: Seq<A>, keep: Seq<bool>) -> Seq<A>
    decreases s.len(),
{
    if s.len() == 0 || keep.len() == 0 {
        Seq::empty()
    } else if keep.last() {
        selected_by(s.drop_last(), keep.drop_last()).push(s.last())
    } else {
        selected_by(s.drop_last(), keep.drop_last())
    }
}

/// The messages to send to a model for a chat about a repository: opens
/// it, reads its tree and branch (`HEAD` when the branch cannot be read),
/// reads the files most relevant to the latest user message (skipping
/// those that cannot be read) and builds the prompt within the default
/// budget. A tree whose counts do not fit the machine's integers is
/// refused.
pub fn chat_messages<G: GitReader>(git: &G, source: &RepositorySource, history: &[ChatMessage]) -> (r:
    Result<Vec<ChatMessage>, ChatError>)
    ensures
        r matches Ok(ms) ==> exists|ctx: RepoContext, t: FileTree|
            #[trigger] is_chat_of(views(ms@), ctx, t, views(history@)),
        r matches Err(e) ==> e is Git,
{
    let repository = match git.open(source) {
        Ok(x) => x,
        Err(e) => return Err(ChatError::Git(e)),
    };
    let tree = match git.file_tree(&repository) {
        Ok(x) => x,
        Err(e) => return Err(ChatError::Git(e)),
    };
    let branch = match git.current_branch(&repository) {
        Ok(b) => b,
        Err(_) => "HEAD".to_string(),
    };
    let question = latest_question(history);
    let candidates = file_paths(&tree);
    let relevant = select_relevant(&candidates, &question, MAX_RELEVANT_FILES);
    let ghost rel = strings_view(relevant@);
    let mut files: Vec<RelevantFile> = Vec::new();
    let ghost mut keep: Seq<bool> = Seq::empty();
    let mut i: usize = 0;
    assert(read_paths(files@) =~= selected_by(rel.take(0), keep));
    while i < relevant.len()
        invariant
            i <= relevant@.len(),
            rel == strings_view(relevant@),
            keep.len() == i,
            read_paths(files@) == selected_by(rel.take(i as int), keep),
        decreases relevant@.len() - i,
    {
        let ghost before = files@;
        let ghost prior = keep;
        assert(rel.take(i + 1).drop_last() =~= rel.take(i as int));
        assert(rel.take(i + 1).last() == relevant@[i as int]@);
        match git.read_file(&repository, &relevant[i]) {
            Ok(content) => {
                files.push(RelevantFile { path: relevant[i].clone(), content });
                proof {
                    keep = keep.push(true);
                    assert(keep.drop_last() =~= prior);
                    assert(read_paths(files@) =~= read_paths(before).push(relevant@[i as int]@));
                }
            },
            Err(_) => {
                proof {
                    keep = keep.push(false);
                    assert(keep.drop_last() =~= prior);
                }
            },
        }
        i += 1;
    }
    assert(rel.take(relevant@.len() as int) =~= rel);
    if tree.checked_totals().is_none() {
        return Err(ChatError::Git(too_large()));
    }
    let context = chat_context(repository.name, branch, &tree, files);
    let messages = build_messages(&context, history, DEFAULT_TOKEN_BUDGET);
    let result: Result<Vec<ChatMessage>, ChatError> = Ok(messages);
    assert(read_paths(context.relevant_files@) == selected_by(rel, keep));
    assert(is_chat_of(views(result->Ok_0@), context, tree, views(history@)));
    result
}

// --- Laws -------------------------------------------------------------------------

/// Whether some commit of `history` was made by the author `a`, under the
/// name `a` carries.
pub open spec fn authored(history: Seq<CommitInfo>, a: AuthorView) -> bool {
    exists|i: int|
        0 <= i < history.len() && (#[trigger] history[i]).author_email@ == a.email
            && history[i].author_name@ == a.name
}

/// Every aggregated author made a commit, under that name, and counts at
/// least one.
proof fn lemma_aggregate_authors(history: Seq<CommitInfo>)
    requires
        history.len() <= usize::MAX,
    ensures
        forall|k: int|
            0 <= k < aggregate_authors(history).len() ==> authored(
                history,
                #[trigger] aggregate_authors(history)[k],
            ) && aggregate_authors(history)[k].commit_count >= 1
                && aggregate_authors(history)[k].commit_count <= history.len(),
    decreases history.len(),
{
    if history.len() > 0 {
        let p = history.drop_last();
        lemma_aggregate_authors(p);
        let r = aggregate_authors(p);
        let a = aggregate_authors(history);
        let c = history.last();
        assert forall|k: int| 0 <= k < a.len() implies authored(history, #[trigger] a[k])
            && a[k].commit_count >= 1 && a[k].commit_count <= history.len() by {
            if k < r.len() {
                assert(authored(p, r[k]));
                let i = choose|i: int|
                    0 <= i < p.len() && (#[trigger] p[i]).author_email@ == r[k].email
                        && p[i].author_name@ == r[k].name;
                assert(history[i] == p[i]);
                assert(a[k].name == r[k].name && a[k].email == r[k].email);
            } else {
                assert(history[history.len() - 1] == c);
            }
        }
    }
}

/// Authors order totally and transitively.
proof fn lemma_author_order()
    ensures
        order_total::<AuthorView>(),
        order_transitive::<AuthorView>(),
{
    assert forall|a: AuthorView, b: AuthorView| #[trigger] a.order_le(&b) || b.order_le(&a) by {
        lemma_seq_lt_total(a.name, b.name);
    }
    assert forall|a: AuthorView, b: AuthorView, c: AuthorView|
        #![trigger a.order_le(&b), b.order_le(&c)]
        a.order_le(&b) && b.order_le(&c) implies a.order_le(&c) by {
        if seq_lt(a.name, b.name) && seq_lt(b.name, c.name) {
            lemma_seq_lt_trans(a.name, b.name, c.name);
        }
    }
}

/// At most `MAX_CONTRIBUTORS` contributors are reported, most commits
/// first, then by name; each made at least one commit of the history,
/// under the name reported.
pub proof fn law_contributors_ranked(history: Seq<CommitInfo>)
    requires
        history.len() <= usize::MAX,
    ensures
        contributors_spec(history).len() <= MAX_CONTRIBUTORS,
        is_sorted(contributors_spec(history)),
        forall|k: int|
            0 <= k < contributors_spec(history).len() ==> authored(
                history,
                #[trigger] contributors_spec(history)[k],
            ) && contributors_spec(history)[k].commit_count >= 1,
{
    let a = aggregate_authors(history);
    let s = sort_seq(a);
    lemma_aggregate_authors(history);
    lemma_author_order();
    lemma_sort_sorted(a);
    lemma_sort_contains(a);
    if s.len() > MAX_CONTRIBUTORS {
        lemma_sorted_take(s, MAX_CONTRIBUTORS as int);
    }
    let r = contributors_spec(history);
    assert forall|k: int| 0 <= k < r.len() implies authored(history, #[trigger] r[k])
        && r[k].commit_count >= 1 by {
        assert(r[k] == s[k]);
        assert(a.contains(s[k]));
        let m = choose|m: int| 0 <= m < a.len() && a[m] == s[k];
        assert(authored(history, a[m]));
    }
}

} // verus!
