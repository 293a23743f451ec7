use std::cell::RefCell;

use devpilot::analysis::TreeSitterAnalyzer;
use devpilot::entities::{
    CommitHash, CommitInfo, Dependency, Detection, Ecosystem, FileChurn, FileNode, FileTree,
    Language, RecentProject, Repository, RepositoryId, RepositorySource,
};
use devpilot::errors::{GitError, ProjectError, ScanError, StoreError};
use devpilot::ports::{GitReader, ProjectScanner, RecentProjectsStore};
use devpilot::entities::{ChatMessage, Role};
use devpilot::usecases::{
    chat_messages, AnalyzeArchitecture, AnalyzeCodeIntelligence, ListRecentProjects, OpenProject,
    RemoveRecentProject, ScanRepository, SearchCode,
};

/// An in-memory repository.
#[derive(Clone)]
struct FakeGit {
    files: Vec<(String, String)>,
}

fn repo() -> Repository {
    Repository {
        id: RepositoryId::new("/tmp/demo".to_string()),
        name: "demo".to_string(),
        local_path: "/tmp/demo".to_string(),
        head: CommitHash::new("abc".to_string()),
    }
}

impl GitReader for FakeGit {
    fn open(&self, source: &RepositorySource) -> Result<Repository, GitError> {
        match source {
            RepositorySource::LocalPath(p) if p == "/tmp/demo" => Ok(repo()),
            RepositorySource::LocalPath(p) => Err(GitError::NotARepository { path: p.clone() }),
            RepositorySource::RemoteUrl(u) => Err(GitError::CloneFailed { url: u.clone(), reason: "offline".to_string() }),
        }
    }

    fn file_tree(&self, _: &Repository) -> Result<FileTree, GitError> {
        let src: Vec<FileNode> = self
            .files
            .iter()
            .map(|(p, c)| FileNode::File {
                path: p.clone(),
                size_bytes: c.len() as u64,
                language: if p.ends_with(".rs") { Language::Rust } else { Language::Unknown },
            })
            .collect();
        Ok(FileTree {
            root: FileNode::Directory {
                path: String::new(),
                children: vec![FileNode::Directory { path: "src".to_string(), children: src }],
            },
        })
    }

    fn history(&self, _: &Repository, limit: usize) -> Result<Vec<CommitInfo>, GitError> {
        let all = vec![
            CommitInfo {
                hash: CommitHash::new("abc".to_string()),
                author_name: "Amy".to_string(),
                author_email: "a@x".to_string(),
                timestamp: 2,
                summary: "second".to_string(),
            },
            CommitInfo {
                hash: CommitHash::new("abb".to_string()),
                author_name: "Amy".to_string(),
                author_email: "a@x".to_string(),
                timestamp: 1,
                summary: "first".to_string(),
            },
        ];
        Ok(all.into_iter().take(limit).collect())
    }

    fn churn(&self, _: &Repository) -> Result<Vec<FileChurn>, GitError> {
        Ok(vec![])
    }

    fn read_file(&self, _: &Repository, path: &str) -> Result<String, GitError> {
        self.files
            .iter()
            .find(|(p, _)| p == path)
            .map(|(_, c)| c.clone())
            .ok_or(GitError::FileNotFound { path: path.to_string() })
    }

    fn current_branch(&self, _: &Repository) -> Result<String, GitError> {
        Ok("main".to_string())
    }

    fn commit_count(&self, _: &Repository) -> Result<usize, GitError> {
        Ok(2)
    }
}

fn fake() -> FakeGit {
    FakeGit {
        files: vec![
            ("src/a.rs".to_string(), "use crate::b;\nfn foo() { bar(); }\nfn main() { foo(); }\n".to_string()),
            ("src/b.rs".to_string(), "use crate::a;\npub fn bar() {}\nfn unused() {}\n".to_string()),
            ("src/notes.txt".to_string(), "hello".to_string()),
        ],
    }
}

fn local() -> RepositorySource {
    RepositorySource::LocalPath("/tmp/demo".to_string())
}

#[test]
fn architecture_use_case_builds_graphs_of_parsed_files() {
    let model = AnalyzeArchitecture::new(fake(), TreeSitterAnalyzer::new()).execute(local()).unwrap();
    let files: Vec<&str> = model.dependency_graph.nodes.iter().map(|n| n.id.as_str()).collect();
    assert_eq!(files, vec!["src/a.rs", "src/b.rs"]);
    assert_eq!(model.dependency_graph.edges.len(), 2);
    assert!(model.call_graph.nodes.iter().any(|n| n.id == "src/b.rs::unused"));
}

#[test]
fn architecture_use_case_passes_git_errors_on() {
    let err = AnalyzeArchitecture::new(fake(), TreeSitterAnalyzer::new())
        .execute(RepositorySource::LocalPath("/elsewhere".to_string()))
        .unwrap_err();
    assert_eq!(err, GitError::NotARepository { path: "/elsewhere".to_string() });
}

#[test]
fn intelligence_use_case_reports_cycle_and_dead_code() {
    let report = AnalyzeCodeIntelligence::new(fake(), TreeSitterAnalyzer::new()).execute(local()).unwrap();
    assert_eq!(report.cyclic_dependencies.len(), 1);
    assert_eq!(report.cyclic_dependencies[0].nodes, vec!["src/a.rs", "src/b.rs"]);
    // The parser records no call sites, so only exports and `main` count
    // as used.
    let dead: Vec<&str> = report.dead_code.iter().map(|d| d.name.as_str()).collect();
    assert_eq!(dead, vec!["foo", "unused"]);
}

#[test]
fn search_use_case_finds_symbols() {
    let hits = SearchCode::new(fake(), TreeSitterAnalyzer::new())
        .execute(local(), "unused code".to_string())
        .unwrap();
    assert_eq!(hits[0].symbol.as_deref(), Some("unused"));
}

/// An in-memory recent-projects list.
#[derive(Default)]
struct MemoryStore {
    items: RefCell<Vec<RecentProject>>,
}

impl RecentProjectsStore for &MemoryStore {
    fn list(&self) -> Result<Vec<RecentProject>, StoreError> {
        Ok(self.items.borrow().clone())
    }

    fn add(&self, project: &RecentProject) -> Result<(), StoreError> {
        self.items.borrow_mut().insert(0, project.clone());
        Ok(())
    }

    fn remove(&self, id: &RepositoryId) -> Result<(), StoreError> {
        self.items.borrow_mut().retain(|p| &p.id != id);
        Ok(())
    }
}

#[test]
fn open_project_summarizes_and_records() {
    let store = MemoryStore::default();
    let meta = OpenProject::new(fake(), &store).execute(local()).unwrap();
    assert_eq!(meta.name, "demo");
    assert_eq!(meta.branch, "main");
    assert_eq!(meta.commit_count, 2);
    assert_eq!(meta.file_count, 3);
    assert_eq!(meta.languages[0].language, Language::Rust);
    let listed = ListRecentProjects::new(&store).execute().unwrap();
    assert_eq!(listed.len(), 1);
    assert_eq!(listed[0].name, "demo");
    RemoveRecentProject::new(&store).execute(&RepositoryId::new("/tmp/demo".to_string())).unwrap();
    assert!(ListRecentProjects::new(&store).execute().unwrap().is_empty());
}

#[test]
fn open_project_error_keeps_store_untouched() {
    let store = MemoryStore::default();
    let err = OpenProject::new(fake(), &store)
        .execute(RepositorySource::RemoteUrl("https://example.com/x.git".to_string()))
        .unwrap_err();
    assert!(matches!(err, ProjectError::Git(GitError::CloneFailed { .. })));
    assert!(store.items.borrow().is_empty());
}

#[derive(Clone, Copy)]
struct FixedScanner;

impl ProjectScanner for FixedScanner {
    fn detect(&self, _: &Repository) -> Result<Detection, ScanError> {
        Ok(Detection {
            frameworks: vec![],
            dependencies: vec![Dependency {
                name: "serde".to_string(),
                version: Some("1".to_string()),
                ecosystem: Ecosystem::Cargo,
            }],
        })
    }
}

#[test]
fn scan_use_case_assembles_report() {
    let report = ScanRepository::new(fake(), FixedScanner).execute(local()).unwrap();
    assert_eq!(report.git.branch, "main");
    assert_eq!(report.git.last_commit.unwrap().summary, "second");
    assert_eq!(report.git.contributors[0].commit_count, 2);
    assert_eq!(report.structure.total_files, 3);
    assert_eq!(report.structure.top_level_dirs, vec!["src"]);
    assert_eq!(report.dependencies.len(), 1);
}

#[test]
fn chat_messages_include_relevant_files() {
    let history = vec![ChatMessage::new(Role::User, "what is in notes?".to_string())];
    let messages = chat_messages(&fake(), &local(), &history).unwrap();
    assert_eq!(messages.len(), 2);
    assert_eq!(messages[0].role, Role::System);
    assert!(messages[0].content.contains("Repository: demo (branch main)"));
    assert!(messages[0].content.contains("--- src/notes.txt ---"));
    assert!(!messages[0].content.contains("src/a.rs ---"));
    assert_eq!(messages[1].content, "what is in notes?");
}

#[test]
fn chat_messages_fail_when_repository_cannot_open() {
    let err = chat_messages(&fake(), &RepositorySource::LocalPath("/nope".to_string()), &[]).unwrap_err();
    assert_eq!(
        err,
        devpilot::errors::ChatError::Git(GitError::NotARepository { path: "/nope".to_string() })
    );
}
