//! Symbols of JavaScript and TypeScript syntax trees.
use vstd::prelude::*;

use super::items::{
    add_class, add_export, add_function, add_import, add_interface, extended, items_add, items_of,
    lemma_extended_none, lemma_extended_trans, no_items, one_class, one_export, one_function,
    one_import, one_interface, Items,
};
use super::syntax::{
    end_line, field_of, has_kind, lemma_field_rows, lemma_rows_fit_each, name_of, rows_fit,
    rows_fit_in, start_line, SyntaxNode,
};
use crate::entities::ast::{
    strings_view, ClassView, ExportView, FunctionView, ImportView, InterfaceView,
};
use crate::entities::{ClassDef, ExportDecl, ExportKind, FileAst, FunctionDef, ImportDecl, InterfaceDef};
use crate::text::{chars_of, slice_to_vec, string_of};

verus! {

/// Whether `c` is a quote character.
pub open spec fn is_quote(c: char) -> bool {
    c == '"' || c == '\''
}

/// `s` without leading quotes.
pub open spec fn trim_start_quotes(s: Seq<char>) -> Seq<char>
    decreases s.len(),
{
    if s.len() > 0 && is_quote(s[0]) {
        trim_start_quotes(s.drop_first())
    } else {
        s
    }
}

/// `s` without trailing quotes.
pub open spec fn trim_end_quotes(s: Seq<char>) -> Seq<char>
    decreases s.len(),
{
    if s.len() > 0 && is_quote(s.last()) {
        trim_end_quotes(s.drop_last())
    } else {
        s
    }
}

/// `s` without quotes at either end (`str::trim_matches`).
pub open spec fn unquote(s: Seq<char>) -> Seq<char> {
    trim_end_quotes(trim_start_quotes(s))
}

/// Removes quotes at both ends of `s`.
fn unquote_str(s: &str) -> (r: String)
    ensures
        r@ == unquote(s@),
{
    let cs = chars_of(s);
    let mut a: usize = 0;
    assert(cs@.skip(0) == cs@);
    while a < cs.len() && (cs[a] == '"' || cs[a] == '\'')
        invariant
            a <= cs@.len(),
            trim_start_quotes(cs@.skip(a as int)) == trim_start_quotes(cs@),
        decreases cs@.len() - a,
    {
        assert(cs@.skip(a as int).drop_first() == cs@.skip(a + 1));
        a += 1;
    }
    let mut b: usize = cs.len();
    let ghost t = cs@.skip(a as int);
    assert(t == trim_start_quotes(cs@));
    assert(cs@.subrange(a as int, b as int) == t);
    while b > a && (cs[b - 1] == '"' || cs[b - 1] == '\'')
        invariant
            a <= b <= cs@.len(),
            t == cs@.skip(a as int),
            trim_end_quotes(cs@.subrange(a as int, b as int)) == trim_end_quotes(t),
        decreases b,
    {
        assert(cs@.subrange(a as int, b as int).drop_last() == cs@.subrange(a as int, b - 1));
        b -= 1;
    }
    let r = slice_to_vec(&cs, a, b);
    string_of(&r)
}

// --- Pieces -----------------------------------------------------------------------

/// Whether an EcmaScript node carries the `async` keyword.
pub open spec fn ecma_is_async(n: SyntaxNode) -> bool {
    has_kind(n, "async"@)
}

/// The names of the `method_definition`s among `cs` (named ones), in order.
pub open spec fn method_names(cs: Seq<SyntaxNode>) -> Seq<Seq<char>>
    decreases cs.len(),
{
    if cs.len() == 0 {
        Seq::empty()
    } else {
        let c = cs.last();
        method_names(cs.drop_last()) + if c.named && c.kind@ == "method_definition"@ {
            match name_of(c) {
                Some(x) => seq![x],
                None => Seq::empty(),
            }
        } else {
            Seq::empty()
        }
    }
}

/// The method names of a class: those declared in its body.
pub open spec fn class_methods(n: SyntaxNode) -> Seq<Seq<char>> {
    match field_of(n, "body"@) {
        Some(b) => method_names(b.children@),
        None => Seq::empty(),
    }
}

/// Whether a node kind is a function expression.
pub open spec fn is_function_value(k: Seq<char>) -> bool {
    k == "arrow_function"@ || k == "function"@ || k == "function_expression"@
}

/// The functions bound by the variable declarators among `cs`.
pub open spec fn bound_functions(cs: Seq<SyntaxNode>) -> Items
    decreases cs.len(),
{
    if cs.len() == 0 {
        no_items()
    } else {
        let d = cs.last();
        items_add(
            bound_functions(cs.drop_last()),
            if d.named && d.kind@ == "variable_declarator"@ {
                match field_of(d, "value"@) {
                    Some(v) => if is_function_value(v.kind@) {
                        match name_of(d) {
                            Some(x) => one_function(
                                FunctionView {
                                    name: x,
                                    start_line: start_line(d),
                                    end_line: end_line(v),
                                    is_async: ecma_is_async(v),
                                    calls: Seq::empty(),
                                },
                            ),
                            None => no_items(),
                        }
                    } else {
                        no_items()
                    },
                    None => no_items(),
                }
            } else {
                no_items()
            },
        )
    }
}

/// Exports of kind `kind` at `line` for the named nodes of kind `k` among
/// `cs` that have a name.
pub open spec fn named_exports(cs: Seq<SyntaxNode>, k: Seq<char>, kind: ExportKind, line: usize) -> Items
    decreases cs.len(),
{
    if cs.len() == 0 {
        no_items()
    } else {
        let c = cs.last();
        items_add(
            named_exports(cs.drop_last(), k, kind, line),
            if c.named && c.kind@ == k {
                match name_of(c) {
                    Some(x) => one_export(ExportView { name: x, kind, line }),
                    None => no_items(),
                }
            } else {
                no_items()
            },
        )
    }
}

/// The first named node of kind `k` among `cs`.
pub open spec fn first_named_kind(cs: Seq<SyntaxNode>, k: Seq<char>) -> Option<SyntaxNode>
    decreases cs.len(),
{
    if cs.len() == 0 {
        None
    } else if cs[0].named && cs[0].kind@ == k {
        Some(cs[0])
    } else {
        first_named_kind(cs.drop_first(), k)
    }
}

/// The export of the declaration `decl` of an export statement at `line`.
pub open spec fn declaration_exports(decl: SyntaxNode, line: usize) -> Items {
    let k = decl.kind@;
    let named = |kind: ExportKind|
        match name_of(decl) {
            Some(x) => one_export(ExportView { name: x, kind, line }),
            None => no_items(),
        };
    if k == "function_declaration"@ || k == "generator_function_declaration"@ {
        named(ExportKind::Function)
    } else if k == "class_declaration"@ {
        named(ExportKind::Class)
    } else if k == "interface_declaration"@ {
        named(ExportKind::Interface)
    } else if k == "lexical_declaration"@ || k == "variable_declaration"@ {
        named_exports(decl.children@, "variable_declarator"@, ExportKind::Value, line)
    } else {
        no_items()
    }
}

/// The exports an `export` statement declares: those of its declaration;
/// else the specifiers of its `export { ... }` clause; else `default` for
/// `export default`.
pub open spec fn statement_exports(n: SyntaxNode) -> Items {
    let line = start_line(n);
    match field_of(n, "declaration"@) {
        Some(decl) => declaration_exports(decl, line),
        None => match first_named_kind(n.children@, "export_clause"@) {
            Some(clause) => named_exports(
                clause.children@,
                "export_specifier"@,
                ExportKind::Other,
                line,
            ),
            None => if has_kind(n, "default"@) {
                one_export(ExportView { name: "default"@, kind: ExportKind::Other, line })
            } else {
                no_items()
            },
        },
    }
}

/// The symbols an EcmaScript node declares itself.
pub open spec fn ecma_node_items(n: SyntaxNode) -> Items {
    let k = n.kind@;
    if k == "function_declaration"@ || k == "generator_function_declaration"@ {
        match name_of(n) {
            Some(x) => one_function(
                FunctionView {
                    name: x,
                    start_line: start_line(n),
                    end_line: end_line(n),
                    is_async: ecma_is_async(n),
                    calls: Seq::empty(),
                },
            ),
            None => no_items(),
        }
    } else if k == "class_declaration"@ {
        match name_of(n) {
            Some(x) => one_class(
                ClassView {
                    name: x,
                    start_line: start_line(n),
                    end_line: end_line(n),
                    methods: class_methods(n),
                },
            ),
            None => no_items(),
        }
    } else if k == "interface_declaration"@ {
        match name_of(n) {
            Some(x) => one_interface(InterfaceView { name: x, start_line: start_line(n) }),
            None => no_items(),
        }
    } else if k == "import_statement"@ {
        match field_of(n, "source"@) {
            Some(s) => one_import(ImportView { source: unquote(s.text@), line: start_line(n) }),
            None => no_items(),
        }
    } else if k == "lexical_declaration"@ || k == "variable_declaration"@ {
        bound_functions(n.children@)
    } else if k == "export_statement"@ {
        statement_exports(n)
    } else {
        no_items()
    }
}

/// The symbols of an EcmaScript tree, in pre-order over named nodes; a
/// class's body is not descended into (its methods are listed with it).
pub open spec fn ecma_tree(n: SyntaxNode) -> Items
    decreases n,
{
    if n.kind@ == "class_declaration"@ {
        ecma_node_items(n)
    } else {
        items_add(ecma_node_items(n), ecma_forest(n.children@))
    }
}

/// The symbols of the named trees among `cs`, in order.
pub open spec fn ecma_forest(cs: Seq<SyntaxNode>) -> Items
    decreases cs,
{
    if cs.len() == 0 {
        no_items()
    } else {
        items_add(
            ecma_forest(cs.drop_last()),
            if cs.last().named {
                ecma_tree(cs.last())
            } else {
                no_items()
            },
        )
    }
}

// --- Extraction ---------------------------------------------------------------------

/// The names of the method definitions among `cs`.
fn method_names_of(cs: &Vec<SyntaxNode>) -> (r: Vec<String>)
    ensures
        strings_view(r@) == method_names(cs@),
{
    proof {
        reveal_strlit("method_definition");
    }
    let mut r: Vec<String> = Vec::new();
    let mut i: usize = 0;
    assert(cs@.take(0) =~= Seq::<SyntaxNode>::empty());
    assert(strings_view(r@) =~= Seq::<Seq<char>>::empty());
    while i < cs.len()
        invariant
            i <= cs@.len(),
            strings_view(r@) == method_names(cs@.take(i as int)),
        decreases cs@.len() - i,
    {
        assert(cs@.take(i + 1).drop_last() == cs@.take(i as int));
        assert(cs@.take(i + 1).last() == cs@[i as int]);
        let c = &cs[i];
        let ghost before = strings_view(r@);
        if c.named && c.is_kind("method_definition") {
            match c.name() {
                Some(x) => {
                    r.push(x);
                    assert(strings_view(r@) =~= before + seq![name_of(*c).unwrap()]);
                },
                None => {
                    assert(strings_view(r@) =~= before + Seq::<Seq<char>>::empty());
                },
            }
        } else {
            assert(strings_view(r@) =~= before + Seq::<Seq<char>>::empty());
        }
        i += 1;
    }
    assert(cs@.take(cs@.len() as int) == cs@);
    r
}

/// The method names of a class.
fn class_methods_of(n: &SyntaxNode) -> (r: Vec<String>)
    ensures
        strings_view(r@) == class_methods(*n),
{
    match n.field("body") {
        Some(b) => method_names_of(&b.children),
        None => {
            let r: Vec<String> = Vec::new();
            assert(strings_view(r@) =~= Seq::<Seq<char>>::empty());
            r
        },
    }
}

/// Records the functions bound by the variable declarators among `cs`.
fn add_bound_functions(cs: &Vec<SyntaxNode>, ast: &mut FileAst)
    requires
        rows_fit_in(cs@),
    ensures
        extended(old(ast)@, final(ast)@, bound_functions(cs@)),
{
    proof {
        reveal_strlit("variable_declarator");
        reveal_strlit("value");
        reveal_strlit("arrow_function");
        reveal_strlit("function");
        reveal_strlit("function_expression");
    }
    let ghost a0 = ast@;
    let mut i: usize = 0;
    proof {
        lemma_extended_none(a0);
        assert(cs@.take(0) =~= Seq::<SyntaxNode>::empty());
    }
    while i < cs.len()
        invariant
            i <= cs@.len(),
            rows_fit_in(cs@),
            extended(a0, ast@, bound_functions(cs@.take(i as int))),
        decreases cs@.len() - i,
    {
        assert(cs@.take(i + 1).drop_last() == cs@.take(i as int));
        assert(cs@.take(i + 1).last() == cs@[i as int]);
        let d = &cs[i];
        proof {
            lemma_rows_fit_each(cs@, i as int);
        }
        let ghost b = ast@;
        proof {
            lemma_extended_none(b);
        }
        if d.named && d.is_kind("variable_declarator") {
            match d.field("value") {
                Some(v) => {
                    proof {
                        lemma_field_rows(*d, "value"@);
                    }
                    if v.is_kind("arrow_function") || v.is_kind("function") || v.is_kind(
                        "function_expression",
                    ) {
                        match d.name() {
                            Some(x) => {
                                let f = FunctionDef {
                                    name: x,
                                    start_line: d.start_line(),
                                    end_line: v.end_line(),
                                    is_async: v.has_kind("async"),
                                    calls: Vec::new(),
                                };
                                proof {
                                    reveal_strlit("async");
                                }
                                assert(f@.calls =~= Seq::<Seq<char>>::empty());
                                add_function(ast, f);
                            },
                            None => {},
                        }
                    }
                },
                None => {},
            }
        }
        let ghost step = if d.named && d.kind@ == "variable_declarator"@ {
            match field_of(*d, "value"@) {
                Some(v) => if is_function_value(v.kind@) {
                    match name_of(*d) {
                        Some(x) => one_function(
                            FunctionView {
                                name: x,
                                start_line: start_line(*d),
                                end_line: end_line(v),
                                is_async: ecma_is_async(v),
                                calls: Seq::empty(),
                            },
                        ),
                        None => no_items(),
                    }
                } else {
                    no_items()
                },
                None => no_items(),
            }
        } else {
            no_items()
        };
        assert(extended(b, ast@, step));
        proof {
            lemma_extended_trans(a0, b, ast@, bound_functions(cs@.take(i as int)), step);
        }
        i += 1;
    }
    assert(cs@.take(cs@.len() as int) == cs@);
}

/// Records exports for the named nodes of kind `k` among `cs` that have a
/// name.
fn add_named_exports(cs: &Vec<SyntaxNode>, k: &str, kind: ExportKind, line: usize, ast: &mut FileAst)
    ensures
        extended(old(ast)@, final(ast)@, named_exports(cs@, k@, kind, line)),
{
    let ghost a0 = ast@;
    let mut i: usize = 0;
    proof {
        lemma_extended_none(a0);
        assert(cs@.take(0) =~= Seq::<SyntaxNode>::empty());
    }
    while i < cs.len()
        invariant
            i <= cs@.len(),
            extended(a0, ast@, named_exports(cs@.take(i as int), k@, kind, line)),
        decreases cs@.len() - i,
    {
        assert(cs@.take(i + 1).drop_last() == cs@.take(i as int));
        assert(cs@.take(i + 1).last() == cs@[i as int]);
        let c = &cs[i];
        let ghost b = ast@;
        proof {
            lemma_extended_none(b);
        }
        if c.named && c.is_kind(k) {
            match c.name() {
                Some(x) => {
                    add_export(ast, ExportDecl { name: x, kind, line });
                },
                None => {},
            }
        }
        let ghost step = if c.named && c.kind@ == k@ {
            match name_of(*c) {
                Some(x) => one_export(ExportView { name: x, kind, line }),
                None => no_items(),
            }
        } else {
            no_items()
        };
        assert(extended(b, ast@, step));
        proof {
            lemma_extended_trans(a0, b, ast@, named_exports(cs@.take(i as int), k@, kind, line), step);
        }
        i += 1;
    }
    assert(cs@.take(cs@.len() as int) == cs@);
}

/// The first named node of kind `k` among `cs`.
fn first_named_of<'a>(cs: &'a Vec<SyntaxNode>, k: &str) -> (r: Option<&'a SyntaxNode>)
    ensures
        match r {
            Some(c) => first_named_kind(cs@, k@) == Some(*c),
            None => first_named_kind(cs@, k@) is None,
        },
{
    let mut i: usize = 0;
    assert(cs@.skip(0) == cs@);
    while i < cs.len()
        invariant
            i <= cs@.len(),
            first_named_kind(cs@, k@) == first_named_kind(cs@.skip(i as int), k@),
        decreases cs@.len() - i,
    {
        assert(cs@.skip(i as int)[0] == cs@[i as int]);
        assert(cs@.skip(i as int).drop_first() == cs@.skip(i + 1));
        if cs[i].named && cs[i].is_kind(k) {
            return Some(&cs[i]);
        }
        i += 1;
    }
    None
}

/// Records the export of a declaration with a name.
fn add_declaration_export(decl: &SyntaxNode, kind: ExportKind, line: usize, ast: &mut FileAst)
    ensures
        extended(
            old(ast)@,
            final(ast)@,
            match name_of(*decl) {
                Some(x) => one_export(ExportView { name: x, kind, line }),
                None => no_items(),
            },
        ),
{
    proof {
        lemma_extended_none(ast@);
    }
    match decl.name() {
        Some(x) => add_export(ast, ExportDecl { name: x, kind, line }),
        None => {},
    }
}

/// Records the export(s) declared by an `export` statement.
fn ecma_export(n: &SyntaxNode, ast: &mut FileAst)
    requires
        n.start_row < usize::MAX,
    ensures
        extended(old(ast)@, final(ast)@, statement_exports(*n)),
{
    proof {
        reveal_strlit("declaration");
        reveal_strlit("function_declaration");
        reveal_strlit("generator_function_declaration");
        reveal_strlit("class_declaration");
        reveal_strlit("interface_declaration");
        reveal_strlit("lexical_declaration");
        reveal_strlit("variable_declaration");
        reveal_strlit("variable_declarator");
        reveal_strlit("export_clause");
        reveal_strlit("export_specifier");
        reveal_strlit("default");
        lemma_extended_none(ast@);
    }
    let line = n.start_line();
    match n.field("declaration") {
        Some(decl) => {
            if decl.is_kind("function_declaration") || decl.is_kind("generator_function_declaration") {
                add_declaration_export(decl, ExportKind::Function, line, ast);
            } else if decl.is_kind("class_declaration") {
                add_declaration_export(decl, ExportKind::Class, line, ast);
            } else if decl.is_kind("interface_declaration") {
                add_declaration_export(decl, ExportKind::Interface, line, ast);
            } else if decl.is_kind("lexical_declaration") || decl.is_kind("variable_declaration") {
                add_named_exports(&decl.children, "variable_declarator", ExportKind::Value, line, ast);
            }
            return;
        },
        None => {},
    }
    match first_named_of(&n.children, "export_clause") {
        Some(clause) => {
            add_named_exports(&clause.children, "export_specifier", ExportKind::Other, line, ast);
            return;
        },
        None => {},
    }
    if n.has_kind("default") {
        add_export(ast, ExportDecl { name: "default".to_string(), kind: ExportKind::Other, line });
    }
}

/// Records the symbols an EcmaScript node declares itself.
fn ecma_node(n: &SyntaxNode, ast: &mut FileAst)
    requires
        rows_fit(*n),
    ensures
        extended(old(ast)@, final(ast)@, ecma_node_items(*n)),
{
    proof {
        reveal_strlit("function_declaration");
        reveal_strlit("generator_function_declaration");
        reveal_strlit("class_declaration");
        reveal_strlit("interface_declaration");
        reveal_strlit("import_statement");
        reveal_strlit("source");
        reveal_strlit("lexical_declaration");
        reveal_strlit("variable_declaration");
        reveal_strlit("export_statement");
        reveal_strlit("async");
        lemma_extended_none(ast@);
    }
    if n.is_kind("function_declaration") || n.is_kind("generator_function_declaration") {
        match n.name() {
            Some(x) => {
                let f = FunctionDef {
                    name: x,
                    start_line: n.start_line(),
                    end_line: n.end_line(),
                    is_async: n.has_kind("async"),
                    calls: Vec::new(),
                };
                assert(f@.calls =~= Seq::<Seq<char>>::empty());
                add_function(ast, f);
            },
            None => {},
        }
    } else if n.is_kind("class_declaration") {
        match n.name() {
            Some(x) => {
                let methods = class_methods_of(n);
                add_class(
                    ast,
                    ClassDef { name: x, start_line: n.start_line(), end_line: n.end_line(), methods },
                );
            },
            None => {},
        }
    } else if n.is_kind("interface_declaration") {
        match n.name() {
            Some(x) => add_interface(ast, InterfaceDef { name: x, start_line: n.start_line() }),
            None => {},
        }
    } else if n.is_kind("import_statement") {
        match n.field("source") {
            Some(src) => {
                let source = unquote_str(&src.text);
                add_import(ast, ImportDecl { source, line: n.start_line() });
            },
            None => {},
        }
    } else if n.is_kind("lexical_declaration") || n.is_kind("variable_declaration") {
        add_bound_functions(&n.children, ast);
    } else if n.is_kind("export_statement") {
        ecma_export(n, ast);
    }
}

/// Records the symbols of an EcmaScript tree.
fn ecma_visit(n: &SyntaxNode, ast: &mut FileAst)
    requires
        rows_fit(*n),
    ensures
        extended(old(ast)@, final(ast)@, ecma_tree(*n)),
    decreases *n,
{
    let ghost a0 = ast@;
    ecma_node(n, ast);
    proof {
        reveal_strlit("class_declaration");
    }
    if n.is_kind("class_declaration") {
        return;
    }
    let ghost a1 = ast@;
    let mut i: usize = 0;
    proof {
        lemma_extended_none(a1);
        assert(n.children@.take(0) =~= Seq::<SyntaxNode>::empty());
    }
    while i < n.children.len()
        invariant
            i <= n.children@.len(),
            rows_fit_in(n.children@),
            extended(a1, ast@, ecma_forest(n.children@.take(i as int))),
        decreases n.children@.len() - i,
    {
        let c = &n.children[i];
        assert(n.children@.take(i + 1).drop_last() == n.children@.take(i as int));
        assert(n.children@.take(i + 1).last() == *c);
        let ghost b = ast@;
        if c.named {
            proof {
                lemma_rows_fit_each(n.children@, i as int);
                assert(decreases_to!(*n => n.children@[i as int]));
            }
            ecma_visit(c, ast);
            proof {
                lemma_extended_trans(a1, b, ast@, ecma_forest(n.children@.take(i as int)), ecma_tree(*c));
            }
        } else {
            proof {
                lemma_extended_none(b);
                lemma_extended_trans(a1, b, ast@, ecma_forest(n.children@.take(i as int)), no_items());
            }
        }
        i += 1;
    }
    proof {
        assert(n.children@.take(n.children@.len() as int) == n.children@);
        lemma_extended_trans(a0, a1, ast@, ecma_node_items(*n), ecma_forest(n.children@));
    }
}

/// Extracts the symbols of a JavaScript or TypeScript syntax tree into
/// `ast`.
pub fn ecma(root: &SyntaxNode, ast: &mut FileAst)
    requires
        rows_fit(*root),
    ensures
        extended(old(ast)@, final(ast)@, ecma_tree(*root)),
{
    ecma_visit(root, ast);
}

} // verus!
