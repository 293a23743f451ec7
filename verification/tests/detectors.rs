use devpilot::detectors::{
    cargo_framework_of, detect_cargo, detect_gomod, detect_manifest, detect_manifests, detect_npm,
    detect_pyproject,
    detect_requirements, go_framework_of, manifest_files, merge_detection, npm_framework_of,
    python_framework_of,
};
use devpilot::entities::{Detection, Ecosystem, FrameworkCategory};

#[test]
fn npm_detects_react_and_deps() {
    let content = r#"{
        "dependencies": { "react": "^18.0.0", "lodash": "^4" },
        "devDependencies": { "vite": "^6" }
    }"#;
    let detection = detect_npm(content);
    assert_eq!(detection.dependencies.len(), 3);
    assert_eq!(detection.frameworks.len(), 1);
    assert_eq!(detection.frameworks[0].name, "React");
    assert_eq!(
        detection.frameworks[0].category,
        FrameworkCategory::Frontend
    );
}

#[test]
fn npm_ignores_malformed_json() {
    assert_eq!(detect_npm("{ not json"), Detection::default());
}

#[test]
fn cargo_detects_tauri_and_versions() {
    let content = r#"
        [dependencies]
        tauri = { version = "2", features = [] }
        serde = "1"
    "#;
    let detection = detect_cargo(content);
    assert_eq!(detection.dependencies.len(), 2);
    assert!(detection
        .frameworks
        .iter()
        .any(|f| f.name == "Tauri" && f.category == FrameworkCategory::Desktop));
    let serde = detection
        .dependencies
        .iter()
        .find(|d| d.name == "serde")
        .unwrap();
    assert_eq!(serde.version.as_deref(), Some("1"));
}

#[test]
fn requirements_parses_names_and_frameworks() {
    let content = "Django==4.2.1\nrequests>=2\n# comment\nflask\n";
    let detection = detect_requirements(content);
    assert_eq!(detection.dependencies.len(), 3);
    let names: Vec<&str> = detection
        .frameworks
        .iter()
        .map(|f| f.name.as_str())
        .collect();
    assert!(names.contains(&"Django"));
    assert!(names.contains(&"Flask"));
    let django = &detection.dependencies[0];
    assert_eq!(django.name, "django");
    assert_eq!(django.version.as_deref(), Some("==4.2.1"));
}

#[test]
fn pyproject_handles_pep621_and_poetry() {
    let pep = r#"
        [project]
        dependencies = ["fastapi>=0.100", "uvicorn"]
    "#;
    let detection = detect_pyproject(pep);
    assert!(detection.frameworks.iter().any(|f| f.name == "FastAPI"));
    assert_eq!(detection.dependencies.len(), 2);
}

#[test]
fn gomod_parses_block_and_frameworks() {
    let content = "module example\n\ngo 1.22\n\nrequire (\n\tgithub.com/gin-gonic/gin v1.9.1\n\tgithub.com/stretchr/testify v1.8.0 // indirect\n)\n";
    let detection = detect_gomod(content);
    assert_eq!(detection.dependencies.len(), 2);
    assert!(detection.frameworks.iter().any(|f| f.name == "Gin"));
}

#[test]
fn gomod_parses_single_require() {
    let content = "module x\nrequire github.com/labstack/echo/v4 v4.11.0\n";
    let detection = detect_gomod(content);
    assert_eq!(detection.dependencies.len(), 1);
    assert!(detection.frameworks.iter().any(|f| f.name == "Echo"));
}

#[test]
fn poetry_dependencies_skip_python_itself() {
    let content = r#"
        [tool.poetry.dependencies]
        python = "^3.11"
        django = "^4.2"
    "#;
    let detection = detect_pyproject(content);
    assert_eq!(detection.dependencies.len(), 1);
    assert_eq!(detection.dependencies[0].name, "django");
    assert_eq!(detection.dependencies[0].version.as_deref(), Some("^4.2"));
    assert_eq!(detection.dependencies[0].ecosystem, Ecosystem::PyPI);
    assert_eq!(detection.frameworks[0].name, "Django");
}

#[test]
fn malformed_toml_yields_empty_detection() {
    assert_eq!(detect_cargo("[dependencies\nserde = "), Detection::default());
    assert_eq!(detect_pyproject("= broken"), Detection::default());
}

#[test]
fn requirements_handles_extras_and_blank_lines() {
    let detection = detect_requirements("\n  FastAPI[all]~=0.110  \n-r other.txt\n");
    assert_eq!(detection.dependencies.len(), 1);
    assert_eq!(detection.dependencies[0].name, "fastapi");
    assert_eq!(detection.dependencies[0].version.as_deref(), Some("[all]~=0.110"));
    assert_eq!(detection.frameworks[0].category, FrameworkCategory::Backend);
}

#[test]
fn framework_tables_cover_each_ecosystem() {
    assert_eq!(npm_framework_of("next").map(|p| p.0), Some("Next.js"));
    assert_eq!(npm_framework_of("left-pad"), None);
    assert_eq!(cargo_framework_of("axum").map(|p| p.0), Some("Axum"));
    assert_eq!(python_framework_of("flask").map(|p| p.0), Some("Flask"));
    assert_eq!(go_framework_of("github.com/gofiber/fiber/v2").map(|p| p.0), Some("Fiber"));
}

#[test]
fn detect_manifest_dispatches_by_file_name() {
    assert_eq!(manifest_files().len(), 5);
    let mut all = Detection::default();
    merge_detection(&mut all, detect_manifest("package.json", r#"{ "dependencies": { "react": "^18" } }"#));
    merge_detection(&mut all, detect_manifest("Cargo.toml", "[dependencies]\ntauri = \"2\"\n"));
    merge_detection(&mut all, detect_manifest("notes.txt", "react"));
    let names: Vec<&str> = all.frameworks.iter().map(|f| f.name.as_str()).collect();
    assert_eq!(names, vec!["React", "Tauri"]);
    let deps: Vec<&str> = all.dependencies.iter().map(|d| d.name.as_str()).collect();
    assert_eq!(deps, vec!["react", "tauri"]);
}

#[test]
fn no_detector_reports_more_frameworks_than_dependencies() {
    let detections = [
        detect_requirements("django\nflask\nrequests\n"),
        detect_gomod("require github.com/gin-gonic/gin v1\n"),
        detect_npm(r#"{ "dependencies": { "react": "1", "vue": "3" } }"#),
        detect_cargo("[dependencies]\naxum = \"0.7\"\n"),
        detect_pyproject("[project]\ndependencies = [\"fastapi\"]\n"),
    ];
    for d in &detections {
        assert!(!d.frameworks.is_empty());
        assert!(d.frameworks.len() <= d.dependencies.len());
    }
}

fn manifests(files: &[(&str, &str)]) -> Vec<(String, String)> {
    files.iter().map(|(n, c)| (n.to_string(), c.to_string())).collect()
}

#[test]
fn detects_across_multiple_manifests() {
    let detection = detect_manifests(&manifests(&[
        ("package.json", r#"{ "dependencies": { "react": "^18" } }"#),
        ("Cargo.toml", "[dependencies]\ntauri = \"2\"\n"),
    ]));

    let names: Vec<&str> = detection
        .frameworks
        .iter()
        .map(|f| f.name.as_str())
        .collect();
    assert!(names.contains(&"React"));
    assert!(names.contains(&"Tauri"));

    assert!(detection
        .dependencies
        .iter()
        .any(|d| d.name == "react" && d.ecosystem == Ecosystem::Npm));
    assert!(detection
        .dependencies
        .iter()
        .any(|d| d.name == "tauri" && d.ecosystem == Ecosystem::Cargo));
}

#[test]
fn empty_project_yields_empty_detection() {
    let detection = detect_manifests(&[]);
    assert!(detection.frameworks.is_empty());
    assert!(detection.dependencies.is_empty());
}

#[test]
fn malformed_manifest_is_skipped_not_failed() {
    let detection = detect_manifests(&manifests(&[("package.json", "{ not json")]));
    assert!(detection.dependencies.is_empty());
}
