//! The symbols a syntax tree yields, and how they are added to a file's
//! model.
use vstd::prelude::*;

use crate::entities::ast::{AstView, ClassView, ExportView, FunctionView, ImportView, InterfaceView};
use crate::entities::{ClassDef, ExportDecl, ExportKind, FileAst, FunctionDef, ImportDecl, InterfaceDef};

verus! {

/// The symbols found in part of a file, each kind in source order.
#[verifier::ext_equal]
pub struct Items {
    pub functions: Seq<FunctionView>,
    pub classes: Seq<ClassView>,
    pub interfaces: Seq<InterfaceView>,
    pub imports: Seq<ImportView>,
    pub exports: Seq<ExportView>,
}

/// No symbols.
pub open spec fn no_items() -> Items {
    Items {
        functions: Seq::empty(),
        classes: Seq::empty(),
        interfaces: Seq::empty(),
        imports: Seq::empty(),
        exports: Seq::empty(),
    }
}

/// The symbols of `a` followed by those of `b`.
pub open spec fn items_add(a: Items, b: Items) -> Items {
    Items {
        functions: a.functions + b.functions,
        classes: a.classes + b.classes,
        interfaces: a.interfaces + b.interfaces,
        imports: a.imports + b.imports,
        exports: a.exports + b.exports,
    }
}

/// The symbols of a file's model.
pub open spec fn items_of(a: AstView) -> Items {
    Items {
        functions: a.functions,
        classes: a.classes,
        interfaces: a.interfaces,
        imports: a.imports,
        exports: a.exports,
    }
}

/// Whether `after` is `before` with the symbols `it` appended.
pub open spec fn extended(before: AstView, after: AstView, it: Items) -> bool {
    &&& after.path == before.path
    &&& after.language == before.language
    &&& items_of(after) == items_add(items_of(before), it)
}

/// Adding no symbols changes nothing.
pub proof fn lemma_extended_none(a: AstView)
    ensures
        extended(a, a, no_items()),
{
    assert(items_add(items_of(a), no_items()) =~= items_of(a));
}

/// Extending twice is extending by both.
pub proof fn lemma_extended_trans(a: AstView, b: AstView, c: AstView, x: Items, y: Items)
    requires
        extended(a, b, x),
        extended(b, c, y),
    ensures
        extended(a, c, items_add(x, y)),
{
    assert(items_add(items_add(items_of(a), x), y) =~= items_add(items_of(a), items_add(x, y)));
}

/// One function.
pub open spec fn one_function(f: FunctionView) -> Items {
    Items { functions: seq![f], ..no_items() }
}

/// One class.
pub open spec fn one_class(c: ClassView) -> Items {
    Items { classes: seq![c], ..no_items() }
}

/// One interface.
pub open spec fn one_interface(i: InterfaceView) -> Items {
    Items { interfaces: seq![i], ..no_items() }
}

/// One import.
pub open spec fn one_import(i: ImportView) -> Items {
    Items { imports: seq![i], ..no_items() }
}

/// One export.
pub open spec fn one_export(e: ExportView) -> Items {
    Items { exports: seq![e], ..no_items() }
}

/// Appends a function.
pub fn add_function(ast: &mut FileAst, f: FunctionDef)
    ensures
        extended(old(ast)@, final(ast)@, one_function(f@)),
{
    let ghost before = ast@;
    ast.functions.push(f);
    assert(ast@.functions =~= before.functions + seq![f@]);
    assert(items_of(ast@) =~= items_add(items_of(before), one_function(f@)));
}

/// Appends a class.
pub fn add_class(ast: &mut FileAst, c: ClassDef)
    ensures
        extended(old(ast)@, final(ast)@, one_class(c@)),
{
    let ghost before = ast@;
    ast.classes.push(c);
    assert(ast@.classes =~= before.classes + seq![c@]);
    assert(items_of(ast@) =~= items_add(items_of(before), one_class(c@)));
}

/// Appends an interface.
pub fn add_interface(ast: &mut FileAst, i: InterfaceDef)
    ensures
        extended(old(ast)@, final(ast)@, one_interface(i@)),
{
    let ghost before = ast@;
    ast.interfaces.push(i);
    assert(ast@.interfaces =~= before.interfaces + seq![i@]);
    assert(items_of(ast@) =~= items_add(items_of(before), one_interface(i@)));
}

/// Appends an import.
pub fn add_import(ast: &mut FileAst, i: ImportDecl)
    ensures
        extended(old(ast)@, final(ast)@, one_import(i@)),
{
    let ghost before = ast@;
    ast.imports.push(i);
    assert(ast@.imports =~= before.imports + seq![i@]);
    assert(items_of(ast@) =~= items_add(items_of(before), one_import(i@)));
}

/// Appends an export.
pub fn add_export(ast: &mut FileAst, e: ExportDecl)
    ensures
        extended(old(ast)@, final(ast)@, one_export(e@)),
{
    let ghost before = ast@;
    ast.exports.push(e);
    assert(ast@.exports =~= before.exports + seq![e@]);
    assert(items_of(ast@) =~= items_add(items_of(before), one_export(e@)));
}

} // verus!
