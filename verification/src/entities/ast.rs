use vstd::prelude::*;

use super::language::Language;

verus! {

/// Views of a sequence of strings.
pub open spec fn strings_view(s: Seq<String>) -> Seq<Seq<char>> {
    s.map_values(|x: String| x@)
}

/// A function or method definition.
#[derive(Clone, PartialEq, Eq, Debug)]
pub struct FunctionDef {
    /// Function name.
    pub name: String,
    /// 1-based line where the function starts.
    pub start_line: usize,
    /// 1-based line where the function ends.
    pub end_line: usize,
    /// Whether the function is declared `async`.
    pub is_async: bool,
    /// Names of the functions this one calls, as written in source.
    pub calls: Vec<String>,
}

/// A class or, by analogy, a Rust struct/enum.
#[derive(Clone, PartialEq, Eq, Debug)]
pub struct ClassDef {
    /// Class name.
    pub name: String,
    /// 1-based line where the class starts.
    pub start_line: usize,
    /// 1-based line where the class ends.
    pub end_line: usize,
    /// Method names declared in the class body.
    pub methods: Vec<String>,
}

/// An interface or, by analogy, a Rust trait.
#[derive(Clone, PartialEq, Eq, Debug)]
pub struct InterfaceDef {
    /// Interface name.
    pub name: String,
    /// 1-based line where the interface starts.
    pub start_line: usize,
}

/// An import declaration.
#[derive(Clone, PartialEq, Eq, Debug)]
pub struct ImportDecl {
    /// Imported module or path (e.g. `react`, `std::sync`).
    pub source: String,
    /// 1-based line of the declaration.
    pub line: usize,
}

/// What kind of symbol an export refers to.
#[derive(Clone, Copy, PartialEq, Eq, Structural, Debug)]
pub enum ExportKind {
    /// An exported function.
    Function,
    /// An exported class / struct / enum.
    Class,
    /// An exported interface / trait.
    Interface,
    /// An exported constant or variable.
    Value,
    /// A default export, or anything not otherwise classified.
    Other,
}

/// An export declaration.
#[derive(Clone, PartialEq, Eq, Debug)]
pub struct ExportDecl {
    /// Exported name, when one is available.
    pub name: String,
    /// Kind of the exported symbol.
    pub kind: ExportKind,
    /// 1-based line of the declaration.
    pub line: usize,
}

/// The structural model of one parsed source file, derived from the syntax
/// tree alone: no semantic resolution and no AI.
#[derive(Clone, PartialEq, Eq, Debug)]
pub struct FileAst {
    /// `/`-separated path relative to the repository root.
    pub path: String,
    /// Language the file was parsed as.
    pub language: Language,
    /// Top-level and nested function definitions.
    pub functions: Vec<FunctionDef>,
    /// Class / struct / enum definitions.
    pub classes: Vec<ClassDef>,
    /// Interface / trait definitions.
    pub interfaces: Vec<InterfaceDef>,
    /// Import declarations.
    pub imports: Vec<ImportDecl>,
    /// Export declarations.
    pub exports: Vec<ExportDecl>,
}

impl Default for FileAst {
    /// An empty model with an empty path and unknown language.
    fn default() -> (r: FileAst)
        ensures
            r.path@.len() == 0,
            r.language == Language::Unknown,
            r.functions@.len() == 0,
            r.classes@.len() == 0,
            r.interfaces@.len() == 0,
            r.imports@.len() == 0,
            r.exports@.len() == 0,
    {
        FileAst {
            path: String::new(),
            language: Language::Unknown,
            functions: Vec::new(),
            classes: Vec::new(),
            interfaces: Vec::new(),
            imports: Vec::new(),
            exports: Vec::new(),
        }
    }
}

/// Abstract view of a [`FunctionDef`].
pub struct FunctionView {
    pub name: Seq<char>,
    pub start_line: usize,
    pub end_line: usize,
    pub is_async: bool,
    pub calls: Seq<Seq<char>>,
}

/// Abstract view of a [`ClassDef`].
pub struct ClassView {
    pub name: Seq<char>,
    pub start_line: usize,
    pub end_line: usize,
    pub methods: Seq<Seq<char>>,
}

/// Abstract view of an [`InterfaceDef`].
pub struct InterfaceView {
    pub name: Seq<char>,
    pub start_line: usize,
}

/// Abstract view of an [`ImportDecl`].
pub struct ImportView {
    pub source: Seq<char>,
    pub line: usize,
}

/// Abstract view of an [`ExportDecl`].
pub struct ExportView {
    pub name: Seq<char>,
    pub kind: ExportKind,
    pub line: usize,
}

/// Abstract view of a [`FileAst`].
pub struct AstView {
    pub path: Seq<char>,
    pub language: Language,
    pub functions: Seq<FunctionView>,
    pub classes: Seq<ClassView>,
    pub interfaces: Seq<InterfaceView>,
    pub imports: Seq<ImportView>,
    pub exports: Seq<ExportView>,
}

impl View for FunctionDef {
    type V = FunctionView;

    open spec fn view(&self) -> FunctionView {
        FunctionView {
            name: self.name@,
            start_line: self.start_line,
            end_line: self.end_line,
            is_async: self.is_async,
            calls: strings_view(self.calls@),
        }
    }
}

impl View for ClassDef {
    type V = ClassView;

    open spec fn view(&self) -> ClassView {
        ClassView {
            name: self.name@,
            start_line: self.start_line,
            end_line: self.end_line,
            methods: strings_view(self.methods@),
        }
    }
}

impl View for InterfaceDef {
    type V = InterfaceView;

    open spec fn view(&self) -> InterfaceView {
        InterfaceView { name: self.name@, start_line: self.start_line }
    }
}

impl View for ImportDecl {
    type V = ImportView;

    open spec fn view(&self) -> ImportView {
        ImportView { source: self.source@, line: self.line }
    }
}

impl View for ExportDecl {
    type V = ExportView;

    open spec fn view(&self) -> ExportView {
        ExportView { name: self.name@, kind: self.kind, line: self.line }
    }
}

impl View for FileAst {
    type V = AstView;

    open spec fn view(&self) -> AstView {
        AstView {
            path: self.path@,
            language: self.language,
            functions: self.functions@.map_values(|f: FunctionDef| f@),
            classes: self.classes@.map_values(|c: ClassDef| c@),
            interfaces: self.interfaces@.map_values(|i: InterfaceDef| i@),
            imports: self.imports@.map_values(|i: ImportDecl| i@),
            exports: self.exports@.map_values(|e: ExportDecl| e@),
        }
    }
}

/// Views of a sequence of parsed files.
pub open spec fn asts_view(s: Seq<FileAst>) -> Seq<AstView> {
    s.map_values(|a: FileAst| a@)
}

} // verus!
