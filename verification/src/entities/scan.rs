use vstd::prelude::*;

use super::history::{AuthorStats, CommitHash, CommitInfo};
use super::metadata::LanguageStat;
use super::tree::{dir_count_of, file_count_of, FileNode, FileTree};
use crate::order::{sort_by_key, sort_seq};
use crate::paths::{file_name, file_name_str};
use crate::text::chars_of;

verus! {

/// Package ecosystem a dependency belongs to.
#[derive(Clone, Copy, PartialEq, Eq, Structural, Debug)]
pub enum Ecosystem {
    /// npm / Node.js (`package.json`).
    Npm,
    /// Rust / Cargo (`Cargo.toml`).
    Cargo,
    /// Python / PyPI (`requirements.txt`, `pyproject.toml`).
    PyPI,
    /// Go modules (`go.mod`).
    Go,
}

/// Human-readable name of an ecosystem.
pub open spec fn ecosystem_name(e: Ecosystem) -> Seq<char> {
    match e {
        Ecosystem::Npm => "npm"@,
        Ecosystem::Cargo => "Cargo"@,
        Ecosystem::PyPI => "PyPI"@,
        Ecosystem::Go => "Go"@,
    }
}

impl Ecosystem {
    /// Human-readable ecosystem name.
    pub fn name(&self) -> (r: &'static str)
        ensures
            r@ == ecosystem_name(*self),
    {
        match self {
            Ecosystem::Npm => "npm",
            Ecosystem::Cargo => "Cargo",
            Ecosystem::PyPI => "PyPI",
            Ecosystem::Go => "Go",
        }
    }
}

/// A single declared dependency of the project.
#[derive(Clone, PartialEq, Eq, Debug)]
pub struct Dependency {
    /// Package name.
    pub name: String,
    /// Declared version or version requirement, when available.
    pub version: Option<String>,
    /// Ecosystem the dependency comes from.
    pub ecosystem: Ecosystem,
}

/// Broad role a framework plays in a project.
#[derive(Clone, Copy, PartialEq, Eq, Structural, Debug)]
pub enum FrameworkCategory {
    /// UI / client frameworks (React, Vue, ...).
    Frontend,
    /// Server / web frameworks (Express, Axum, Django, ...).
    Backend,
    /// Frameworks that span both (Next.js, ...).
    Fullstack,
    /// Desktop shells (Tauri, ...).
    Desktop,
}

/// A framework detected from the project's manifests.
#[derive(Clone, PartialEq, Eq, Debug)]
pub struct Framework {
    /// Display name (e.g. `React`).
    pub name: String,
    /// Role the framework plays.
    pub category: FrameworkCategory,
    /// Manifest file the detection came from (e.g. `package.json`).
    pub source: String,
}

/// Abstract view of a [`Dependency`].
pub struct DependencyView {
    pub name: Seq<char>,
    pub version: Option<Seq<char>>,
    pub ecosystem: Ecosystem,
}

/// Abstract view of a [`Framework`].
pub struct FrameworkView {
    pub name: Seq<char>,
    pub category: FrameworkCategory,
    pub source: Seq<char>,
}

impl View for Dependency {
    type V = DependencyView;

    open spec fn view(&self) -> DependencyView {
        DependencyView {
            name: self.name@,
            version: match self.version {
                Some(v) => Some(v@),
                None => None,
            },
            ecosystem: self.ecosystem,
        }
    }
}

impl View for Framework {
    type V = FrameworkView;

    open spec fn view(&self) -> FrameworkView {
        FrameworkView { name: self.name@, category: self.category, source: self.source@ }
    }
}

/// A summary of the repository's top-level folder structure.
#[derive(Clone, PartialEq, Eq, Debug)]
pub struct FolderSummary {
    /// Total number of files in the tree.
    pub total_files: usize,
    /// Total number of directories in the tree.
    pub total_directories: usize,
    /// Names of the top-level directories.
    pub top_level_dirs: Vec<String>,
    /// Recognized convention directories present (src, tests, docs, ...).
    pub notable: Vec<String>,
}

/// Whether a directory name is a recognized project convention.
pub open spec fn is_notable(name: Seq<char>) -> bool {
    name == "src"@ || name == "lib"@ || name == "tests"@ || name == "test"@ || name == "docs"@
        || name == "examples"@ || name == "benches"@ || name == "scripts"@ || name == ".github"@
        || name == "crates"@ || name == "apps"@ || name == "packages"@
}

/// Whether `name` is a recognized project convention directory.
fn notable_dir(name: &str) -> (r: bool)
    ensures
        r == is_notable(name@),
{
    let n = chars_of(name);
    let words = ["src", "lib", "tests", "test", "docs", "examples", "benches", "scripts", ".github",
        "crates", "apps", "packages"];
    let mut i: usize = 0;
    while i < 12
        invariant
            i <= 12,
            n@ == name@,
            words@ == seq!["src", "lib", "tests", "test", "docs", "examples", "benches", "scripts", ".github",
                "crates", "apps", "packages"],
            forall|j: int| 0 <= j < i ==> name@ != words@[j]@,
        decreases 12 - i,
    {
        let w = chars_of(words[i]);
        if crate::text::chars_eq(&n, &w) {
            return true;
        }
        i += 1;
    }
    false
}

/// Names of the directories among `cs`, in order (those with a file name).
pub open spec fn dir_names(cs: Seq<FileNode>) -> Seq<Seq<char>>
    decreases cs.len(),
{
    if cs.len() == 0 {
        Seq::empty()
    } else {
        let r = dir_names(cs.drop_last());
        match cs.last() {
            FileNode::Directory { path, .. } => match file_name(path@) {
                Some(n) => r.push(n),
                None => r,
            },
            FileNode::File { .. } => r,
        }
    }
}

/// Names of the top-level directories of a tree, unsorted.
pub open spec fn top_dir_names(root: FileNode) -> Seq<Seq<char>> {
    match root {
        FileNode::Directory { children, .. } => dir_names(children@),
        FileNode::File { .. } => Seq::empty(),
    }
}

/// The notable names among `names`, in order.
pub open spec fn notable_of(names: Seq<Seq<char>>) -> Seq<Seq<char>>
    decreases names.len(),
{
    if names.len() == 0 {
        Seq::empty()
    } else if is_notable(names.last()) {
        notable_of(names.drop_last()).push(names.last())
    } else {
        notable_of(names.drop_last())
    }
}

/// Names of the top-level directories of `root`, sorted.
pub fn top_level_names(root: &FileNode) -> (r: Vec<String>)
    ensures
        crate::entities::ast::strings_view(r@) == sort_seq(top_dir_names(*root)),
{
    let mut names: Vec<String> = Vec::new();
    match root {
        FileNode::Directory { children, .. } => {
            let mut i: usize = 0;
            assert(children@.take(0) =~= Seq::<FileNode>::empty());
            while i < children.len()
                invariant
                    i <= children@.len(),
                    crate::entities::ast::strings_view(names@) == dir_names(
                        children@.take(i as int),
                    ),
                decreases children@.len() - i,
            {
                assert(children@.take(i + 1).drop_last() == children@.take(i as int));
                assert(children@.take(i + 1).last() == children@[i as int]);
                let ghost before = names@;
                match &children[i] {
                    FileNode::Directory { path, .. } => {
                        match file_name_str(path) {
                            Some(n) => {
                                names.push(n);
                                assert(crate::entities::ast::strings_view(names@)
                                    =~= crate::entities::ast::strings_view(before).push(
                                    names@.last()@,
                                ));
                            },
                            None => {},
                        }
                    },
                    FileNode::File { .. } => {},
                }
                i += 1;
            }
            assert(children@.take(children@.len() as int) == children@);
        },
        FileNode::File { .. } => {
            assert(crate::entities::ast::strings_view(names@) =~= Seq::<Seq<char>>::empty());
        },
    }
    proof {
        crate::order::lemma_chars_order();
    }
    let r = sort_by_key(names);
    assert(crate::order::views(r@) =~= crate::entities::ast::strings_view(r@));
    assert(crate::order::views(names@) =~= crate::entities::ast::strings_view(names@));
    r
}

impl FolderSummary {
    /// Summarizes the top level of a file tree.
    pub fn from_tree(tree: &FileTree) -> (r: FolderSummary)
        requires
            dir_count_of(tree.root) <= usize::MAX,
            file_count_of(tree.root) <= usize::MAX,
        ensures
            r.total_files == file_count_of(tree.root),
            r.total_directories == dir_count_of(tree.root) - (if tree.root is Directory {
                1int
            } else {
                0
            }),
            crate::entities::ast::strings_view(r.top_level_dirs@) == sort_seq(
                top_dir_names(tree.root),
            ),
            crate::entities::ast::strings_view(r.notable@) == notable_of(
                sort_seq(top_dir_names(tree.root)),
            ),
    {
        let top_level_dirs = top_level_names(&tree.root);
        let ghost tv = crate::entities::ast::strings_view(top_level_dirs@);
        let mut notable: Vec<String> = Vec::new();
        let mut i: usize = 0;
        assert(tv.take(0) =~= Seq::<Seq<char>>::empty());
        assert(notable_of(tv.take(0)) =~= Seq::<Seq<char>>::empty());
        while i < top_level_dirs.len()
            invariant
                i <= top_level_dirs@.len(),
                tv == crate::entities::ast::strings_view(top_level_dirs@),
                crate::entities::ast::strings_view(notable@) == notable_of(tv.take(i as int)),
            decreases top_level_dirs@.len() - i,
        {
            let ghost before = notable@;
            assert(tv.take(i + 1).drop_last() == tv.take(i as int));
            assert(tv.take(i + 1) == tv.take(i as int).push(tv[i as int]));
            assert(tv.take(i + 1).last() == tv[i as int]);
            if notable_dir(&top_level_dirs[i]) {
                notable.push(top_level_dirs[i].clone());
                assert(crate::entities::ast::strings_view(notable@) =~= crate::entities::ast::strings_view(
                    before,
                ).push(tv[i as int]));
            } else {
                assert(notable_of(tv.take(i + 1)) =~= notable_of(tv.take(i as int)));
            }
            i += 1;
        }
        assert(tv.take(top_level_dirs@.len() as int) == tv);
        FolderSummary {
            total_files: tree.file_count(),
            total_directories: tree.directory_count(),
            top_level_dirs,
            notable,
        }
    }
}

/// Git facts about the scanned repository.
#[derive(Clone, PartialEq, Eq, Debug)]
pub struct GitSummary {
    /// Current branch name.
    pub branch: String,
    /// Commit HEAD points to.
    pub head: CommitHash,
    /// Total number of commits reachable from HEAD.
    pub commit_count: usize,
    /// Most recent commit, if any.
    pub last_commit: Option<CommitInfo>,
    /// Top contributors by commit count, most first.
    pub contributors: Vec<AuthorStats>,
}

/// Frameworks and dependencies detected from manifests.
#[derive(Clone, PartialEq, Eq, Debug)]
pub struct Detection {
    /// Frameworks found across all manifests.
    pub frameworks: Vec<Framework>,
    /// Dependencies found across all manifests.
    pub dependencies: Vec<Dependency>,
}

impl Default for Detection {
    /// No frameworks and no dependencies.
    fn default() -> (r: Detection)
        ensures
            r.frameworks@.len() == 0,
            r.dependencies@.len() == 0,
    {
        Detection { frameworks: Vec::new(), dependencies: Vec::new() }
    }
}

/// The complete result of scanning a repository.
#[derive(Clone, PartialEq, Eq, Debug)]
pub struct ScanReport {
    /// Per-language file counts, most files first.
    pub languages: Vec<LanguageStat>,
    /// Detected frameworks.
    pub frameworks: Vec<Framework>,
    /// Declared dependencies.
    pub dependencies: Vec<Dependency>,
    /// Folder structure summary.
    pub structure: FolderSummary,
    /// Git facts.
    pub git: GitSummary,
}

} // verus!
