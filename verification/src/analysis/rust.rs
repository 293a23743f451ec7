//! Symbols of Rust syntax trees.
use vstd::prelude::*;

use super::items::{
    add_class, add_export, add_function, add_import, add_interface, extended, items_add, items_of,
    lemma_extended_none, lemma_extended_trans, no_items, one_class, one_export, one_function,
    one_import, one_interface, Items,
};
use super::syntax::{
    end_line, field_of, has_named_kind, lemma_rows_fit_each, name_of, rows_fit, rows_fit_in,
    start_line, SyntaxNode,
};
use crate::entities::ast::{
    strings_view, AstView, ClassView, ExportView, FunctionView, ImportView, InterfaceView,
};
use crate::entities::{ClassDef, ExportDecl, ExportKind, FileAst, FunctionDef, ImportDecl, InterfaceDef};
use crate::text::{before_sub, before_sub_chars, chars_of, contains, contains_sub, find_sub, string_of, trim, trim_chars};
use crate::text::trim_trailing;

verus! {

// --- Methods of impl blocks -----------------------------------------------------

/// The type an `impl` block implements, from its `type` text: generics
/// stripped (`Foo<T>` is `Foo`), trimmed.
pub open spec fn impl_type_name(text: Seq<char>) -> Seq<char> {
    trim(before_sub(text, "<"@))
}

/// Names of the `function_item`s within the trees `cs`, not descending into
/// functions, trees taken last to first.
pub open spec fn fn_names_in(cs: Seq<SyntaxNode>) -> Seq<Seq<char>>
    decreases cs,
{
    if cs.len() == 0 {
        Seq::empty()
    } else {
        (if cs.last().named {
            fn_names_of(cs.last())
        } else {
            Seq::empty()
        }) + fn_names_in(cs.drop_last())
    }
}

/// Names of the `function_item`s of a tree, not descending into functions.
pub open spec fn fn_names_of(n: SyntaxNode) -> Seq<Seq<char>>
    decreases n,
{
    if n.kind@ == "function_item"@ {
        match name_of(n) {
            Some(x) => seq![x],
            None => Seq::empty(),
        }
    } else {
        fn_names_in(n.children@)
    }
}

/// The `impl` blocks of the trees `cs` with their type and method names, in
/// the order a depth-first walk from the last tree to the first meets them.
pub open spec fn impls_in(cs: Seq<SyntaxNode>) -> Seq<(Seq<char>, Seq<Seq<char>>)>
    decreases cs,
{
    if cs.len() == 0 {
        Seq::empty()
    } else {
        (if cs.last().named {
            impls_of(cs.last())
        } else {
            Seq::empty()
        }) + impls_in(cs.drop_last())
    }
}

/// The `impl` blocks of a tree, the tree's own first.
pub open spec fn impls_of(n: SyntaxNode) -> Seq<(Seq<char>, Seq<Seq<char>>)>
    decreases n,
{
    (if n.kind@ == "impl_item"@ {
        match field_of(n, "type"@) {
            Some(t) => seq![(impl_type_name(t.text@), fn_names_in(n.children@))],
            None => Seq::empty(),
        }
    } else {
        Seq::empty()
    }) + impls_in(n.children@)
}

/// The methods recorded for type `name`: those of its `impl` blocks, in
/// order.
pub open spec fn methods_for(impls: Seq<(Seq<char>, Seq<Seq<char>>)>, name: Seq<char>) -> Seq<Seq<char>>
    decreases impls.len(),
{
    if impls.len() == 0 {
        Seq::empty()
    } else {
        methods_for(impls.drop_last(), name) + if impls.last().0 == name {
            impls.last().1
        } else {
            Seq::empty()
        }
    }
}

/// Views of the impl table.
pub open spec fn impls_view(v: Seq<(String, Vec<String>)>) -> Seq<(Seq<char>, Seq<Seq<char>>)> {
    v.map_values(|e: (String, Vec<String>)| (e.0@, strings_view(e.1@)))
}

/// Appends the names of the functions within the trees `cs`.
fn collect_fn_names(cs: &Vec<SyntaxNode>, names: &mut Vec<String>)
    ensures
        strings_view(final(names)@) == strings_view(old(names)@) + fn_names_in(cs@),
    decreases cs@,
{
    let ghost start = strings_view(names@);
    let mut i: usize = cs.len();
    assert(cs@.take(i as int) == cs@);
    assert(start + Seq::<Seq<char>>::empty() =~= start);
    while i > 0
        invariant
            i <= cs@.len(),
            strings_view(names@) + fn_names_in(cs@.take(i as int)) == start + fn_names_in(cs@),
        decreases i,
    {
        let c = &cs[i - 1];
        assert(cs@.take(i as int).last() == *c);
        assert(cs@.take(i as int).drop_last() == cs@.take(i - 1));
        let ghost before = strings_view(names@);
        if c.named {
            proof {
                assert(decreases_to!(cs@ => cs@[i - 1]));
            }
            collect_fn_names_of(c, names);
        }
        assert(strings_view(names@) + fn_names_in(cs@.take(i - 1)) =~= before + fn_names_in(
            cs@.take(i as int),
        ));
        i -= 1;
    }
    assert(cs@.take(0).len() == 0);
    assert(strings_view(names@) + fn_names_in(cs@.take(0)) =~= strings_view(names@));
}

/// Appends the names of the functions of a tree.
fn collect_fn_names_of(n: &SyntaxNode, names: &mut Vec<String>)
    ensures
        strings_view(final(names)@) == strings_view(old(names)@) + fn_names_of(*n),
    decreases *n,
{
    if n.is_kind("function_item") {
        proof {
            reveal_strlit("function_item");
        }
        let ghost before = strings_view(names@);
        match n.name() {
            Some(x) => {
                names.push(x);
                assert(strings_view(names@) =~= before + fn_names_of(*n));
            },
            None => {
                assert(strings_view(names@) =~= before + fn_names_of(*n));
            },
        }
    } else {
        proof {
            reveal_strlit("function_item");
            assert(decreases_to!(*n => n.children));
        }
        collect_fn_names(&n.children, names);
    }
}

/// Appends the `impl` blocks of the trees `cs`.
fn collect_impls(cs: &Vec<SyntaxNode>, impls: &mut Vec<(String, Vec<String>)>)
    ensures
        impls_view(final(impls)@) == impls_view(old(impls)@) + impls_in(cs@),
    decreases cs@,
{
    let ghost start = impls_view(impls@);
    let mut i: usize = cs.len();
    assert(cs@.take(i as int) == cs@);
    while i > 0
        invariant
            i <= cs@.len(),
            impls_view(impls@) + impls_in(cs@.take(i as int)) == start + impls_in(cs@),
        decreases i,
    {
        let c = &cs[i - 1];
        assert(cs@.take(i as int).last() == *c);
        assert(cs@.take(i as int).drop_last() == cs@.take(i - 1));
        let ghost before = impls_view(impls@);
        if c.named {
            proof {
                assert(decreases_to!(cs@ => cs@[i - 1]));
            }
            collect_impls_of(c, impls);
        }
        assert(impls_view(impls@) + impls_in(cs@.take(i - 1)) =~= before + impls_in(
            cs@.take(i as int),
        ));
        i -= 1;
    }
    assert(cs@.take(0).len() == 0);
    assert(impls_view(impls@) + impls_in(cs@.take(0)) =~= impls_view(impls@));
}

/// Appends the `impl` blocks of a tree.
fn collect_impls_of(n: &SyntaxNode, impls: &mut Vec<(String, Vec<String>)>)
    ensures
        impls_view(final(impls)@) == impls_view(old(impls)@) + impls_of(*n),
    decreases *n,
{
    let ghost before = impls_view(impls@);
    proof {
        reveal_strlit("impl_item");
        reveal_strlit("type");
        reveal_strlit("<");
    }
    if n.is_kind("impl_item") {
        match n.field("type") {
            Some(t) => {
                let tc = chars_of(&t.text);
                let lt = chars_of("<");
                let head = before_sub_chars(&tc, &lt);
                let name = trim_chars(&head);
                let mut names: Vec<String> = Vec::new();
                assert(strings_view(names@) =~= Seq::<Seq<char>>::empty());
                proof {
                    assert(decreases_to!(*n => n.children));
                }
                collect_fn_names(&n.children, &mut names);
                assert(strings_view(names@) =~= fn_names_in(n.children@));
                impls.push((string_of(&name), names));
                assert(impls_view(impls@) =~= before.push(
                    (impl_type_name(t.text@), fn_names_in(n.children@)),
                ));
            },
            None => {},
        }
    }
    let ghost mid = impls_view(impls@);
    proof {
        assert(decreases_to!(*n => n.children));
    }
    collect_impls(&n.children, impls);
    assert(impls_view(impls@) =~= before + impls_of(*n));
}

/// The methods recorded for type `name`.
fn methods_of(impls: &Vec<(String, Vec<String>)>, name: &str) -> (r: Vec<String>)
    ensures
        strings_view(r@) == methods_for(impls_view(impls@), name@),
{
    let ghost iv = impls_view(impls@);
    let mut r: Vec<String> = Vec::new();
    let mut i: usize = 0;
    assert(iv.take(0) =~= Seq::<(Seq<char>, Seq<Seq<char>>)>::empty());
    assert(strings_view(r@) =~= Seq::<Seq<char>>::empty());
    while i < impls.len()
        invariant
            i <= impls@.len(),
            iv == impls_view(impls@),
            strings_view(r@) == methods_for(iv.take(i as int), name@),
        decreases impls@.len() - i,
    {
        assert(iv.take(i + 1).drop_last() == iv.take(i as int));
        assert(iv.take(i + 1).last() == (impls@[i as int].0@, strings_view(impls@[i as int].1@)));
        if crate::text::str_eq(&impls[i].0, name) {
            let ms = &impls[i].1;
            let ghost base = strings_view(r@);
            let mut j: usize = 0;
            while j < ms.len()
                invariant
                    j <= ms@.len(),
                    strings_view(r@) == base + strings_view(ms@).take(j as int),
                decreases ms@.len() - j,
            {
                let ghost b = strings_view(r@);
                r.push(ms[j].clone());
                assert(strings_view(r@) =~= b.push(ms@[j as int]@));
                assert(strings_view(ms@).take(j + 1) == strings_view(ms@).take(j as int).push(
                    ms@[j as int]@,
                ));
                assert(strings_view(r@) =~= base + strings_view(ms@).take(j + 1));
                j += 1;
            }
            assert(strings_view(ms@).take(ms@.len() as int) == strings_view(ms@));
        } else {
            assert(strings_view(r@) =~= methods_for(iv.take(i + 1), name@));
        }
        i += 1;
    }
    assert(iv.take(impls@.len() as int) == iv);
    r
}

// --- Symbols --------------------------------------------------------------------

/// Whether a Rust item carries `async` among its function modifiers.
pub open spec fn rust_is_async(n: SyntaxNode) -> bool {
    exists|i: int|
        0 <= i < n.children@.len() && n.children@[i].named && #[trigger] n.children@[i].kind@
            == "function_modifiers"@ && contains_sub(n.children@[i].text@, "async"@)
}

/// The export of a `pub` item with a name.
pub open spec fn rust_export(n: SyntaxNode, kind: ExportKind) -> Items {
    if has_named_kind(n, "visibility_modifier"@) {
        match name_of(n) {
            Some(x) => one_export(ExportView { name: x, kind, line: start_line(n) }),
            None => no_items(),
        }
    } else {
        no_items()
    }
}

/// The path a `use` declaration imports: its text after `use `, trimmed,
/// without trailing semicolons.
pub open spec fn use_source(raw: Seq<char>) -> Seq<char> {
    let rest = match find_sub(raw, "use "@) {
        Some(i) => raw.skip(i + 4),
        None => raw,
    };
    trim(trim_trailing(trim(rest), ";"@))
}

/// The symbols a Rust node declares itself.
pub open spec fn rust_node_items(n: SyntaxNode, impls: Seq<(Seq<char>, Seq<Seq<char>>)>) -> Items {
    let k = n.kind@;
    if k == "function_item"@ {
        items_add(
            match name_of(n) {
                Some(x) => one_function(
                    FunctionView {
                        name: x,
                        start_line: start_line(n),
                        end_line: end_line(n),
                        is_async: rust_is_async(n),
                        calls: Seq::empty(),
                    },
                ),
                None => no_items(),
            },
            rust_export(n, ExportKind::Function),
        )
    } else if k == "struct_item"@ || k == "enum_item"@ || k == "union_item"@ {
        items_add(
            match name_of(n) {
                Some(x) => one_class(
                    ClassView {
                        name: x,
                        start_line: start_line(n),
                        end_line: end_line(n),
                        methods: methods_for(impls, x),
                    },
                ),
                None => no_items(),
            },
            rust_export(n, ExportKind::Class),
        )
    } else if k == "trait_item"@ {
        items_add(
            match name_of(n) {
                Some(x) => one_interface(InterfaceView { name: x, start_line: start_line(n) }),
                None => no_items(),
            },
            rust_export(n, ExportKind::Interface),
        )
    } else if k == "use_declaration"@ {
        one_import(ImportView { source: use_source(n.text@), line: start_line(n) })
    } else if k == "const_item"@ || k == "static_item"@ {
        rust_export(n, ExportKind::Value)
    } else {
        no_items()
    }
}

/// The symbols of a Rust tree, in pre-order over named nodes.
pub open spec fn rust_tree(n: SyntaxNode, impls: Seq<(Seq<char>, Seq<Seq<char>>)>) -> Items
    decreases n,
{
    items_add(rust_node_items(n, impls), rust_forest(n.children@, impls))
}

/// The symbols of the named trees among `cs`, in order.
pub open spec fn rust_forest(cs: Seq<SyntaxNode>, impls: Seq<(Seq<char>, Seq<Seq<char>>)>) -> Items
    decreases cs,
{
    if cs.len() == 0 {
        no_items()
    } else {
        items_add(
            rust_forest(cs.drop_last(), impls),
            if cs.last().named {
                rust_tree(cs.last(), impls)
            } else {
                no_items()
            },
        )
    }
}

/// The symbols of a Rust file's syntax tree.
pub open spec fn rust_items(root: SyntaxNode) -> Items {
    rust_tree(root, impls_in(root.children@))
}

/// Whether a Rust item is `async`.
fn is_async(n: &SyntaxNode) -> (r: bool)
    ensures
        r == rust_is_async(*n),
{
    let needle = chars_of("async");
    let mut i: usize = 0;
    while i < n.children.len()
        invariant
            i <= n.children@.len(),
            needle@ == "async"@,
            forall|j: int|
                0 <= j < i ==> !(n.children@[j].named && n.children@[j].kind@
                    == "function_modifiers"@ && contains_sub(n.children@[j].text@, "async"@)),
        decreases n.children@.len() - i,
    {
        let c = &n.children[i];
        if c.named && c.is_kind("function_modifiers") {
            let t = chars_of(&c.text);
            if contains(&t, &needle) {
                return true;
            }
        }
        i += 1;
    }
    false
}

/// Records an export for a `pub` Rust item.
fn export_if_public(n: &SyntaxNode, kind: ExportKind, ast: &mut FileAst)
    requires
        n.start_row < usize::MAX,
    ensures
        extended(old(ast)@, final(ast)@, rust_export(*n, kind)),
{
    proof {
        lemma_extended_none(ast@);
    }
    if n.has_named_kind("visibility_modifier") {
        match n.name() {
            Some(x) => {
                let line = n.start_line();
                add_export(ast, ExportDecl { name: x, kind, line });
            },
            None => {},
        }
    }
}

/// The import path of a `use` declaration's text.
fn use_path(raw: &str) -> (r: String)
    ensures
        r@ == use_source(raw@),
{
    let cs = chars_of(raw);
    let pat = chars_of("use ");
    proof {
        reveal_strlit("use ");
    }
    assert(pat@.len() == 4);
    let total = cs.len();
    let rest = match crate::text::find_sub_chars(&cs, &pat) {
        Some(i) => crate::text::slice_to_vec(&cs, i + 4, cs.len()),
        None => crate::text::slice_to_vec(&cs, 0, cs.len()),
    };
    proof {
        assert(cs@.subrange(0, cs@.len() as int) == cs@);
    }
    let t1 = trim_chars(&rest);
    let semi = chars_of(";");
    proof {
        reveal_strlit(";");
    }
    let t2 = crate::text::trim_trailing_chars(&t1, &semi);
    let t3 = trim_chars(&t2);
    string_of(&t3)
}

/// The function a `function_item` declares, if it has a name.
pub open spec fn rust_function(n: SyntaxNode) -> Items {
    match name_of(n) {
        Some(x) => one_function(
            FunctionView {
                name: x,
                start_line: start_line(n),
                end_line: end_line(n),
                is_async: rust_is_async(n),
                calls: Seq::empty(),
            },
        ),
        None => no_items(),
    }
}

/// The class a `struct_item`, `enum_item` or `union_item` declares, if it
/// has a name, with the methods of its `impl` blocks.
pub open spec fn rust_class(n: SyntaxNode, impls: Seq<(Seq<char>, Seq<Seq<char>>)>) -> Items {
    match name_of(n) {
        Some(x) => one_class(
            ClassView {
                name: x,
                start_line: start_line(n),
                end_line: end_line(n),
                methods: methods_for(impls, x),
            },
        ),
        None => no_items(),
    }
}

/// The interface a `trait_item` declares, if it has a name.
pub open spec fn rust_interface(n: SyntaxNode) -> Items {
    match name_of(n) {
        Some(x) => one_interface(InterfaceView { name: x, start_line: start_line(n) }),
        None => no_items(),
    }
}

/// Records the function of a `function_item`.
fn add_rust_function(n: &SyntaxNode, ast: &mut FileAst)
    requires
        n.start_row < usize::MAX,
        n.end_row < usize::MAX,
    ensures
        extended(old(ast)@, final(ast)@, rust_function(*n)),
{
    proof {
        lemma_extended_none(ast@);
    }
    match n.name() {
        Some(x) => {
            let f = FunctionDef {
                name: x,
                start_line: n.start_line(),
                end_line: n.end_line(),
                is_async: is_async(n),
                calls: Vec::new(),
            };
            assert(f@.calls =~= Seq::<Seq<char>>::empty());
            add_function(ast, f);
        },
        None => {},
    }
}

/// Records the class of a struct, enum or union item.
fn add_rust_class(n: &SyntaxNode, impls: &Vec<(String, Vec<String>)>, ast: &mut FileAst)
    requires
        n.start_row < usize::MAX,
        n.end_row < usize::MAX,
    ensures
        extended(old(ast)@, final(ast)@, rust_class(*n, impls_view(impls@))),
{
    proof {
        lemma_extended_none(ast@);
    }
    match n.name() {
        Some(x) => {
            let methods = methods_of(impls, &x);
            let c = ClassDef {
                name: x,
                start_line: n.start_line(),
                end_line: n.end_line(),
                methods,
            };
            add_class(ast, c);
        },
        None => {},
    }
}

/// Records the interface of a trait item.
fn add_rust_interface(n: &SyntaxNode, ast: &mut FileAst)
    requires
        n.start_row < usize::MAX,
    ensures
        extended(old(ast)@, final(ast)@, rust_interface(*n)),
{
    proof {
        lemma_extended_none(ast@);
    }
    match n.name() {
        Some(x) => {
            add_interface(ast, InterfaceDef { name: x, start_line: n.start_line() });
        },
        None => {},
    }
}

/// Records the symbols a Rust node declares itself.
fn rust_node(n: &SyntaxNode, impls: &Vec<(String, Vec<String>)>, ast: &mut FileAst)
    requires
        n.start_row < usize::MAX,
        n.end_row < usize::MAX,
    ensures
        extended(old(ast)@, final(ast)@, rust_node_items(*n, impls_view(impls@))),
{
    let ghost a0 = ast@;
    proof {
        lemma_extended_none(ast@);
        reveal_strlit("function_item");
        reveal_strlit("struct_item");
        reveal_strlit("enum_item");
        reveal_strlit("union_item");
        reveal_strlit("trait_item");
        reveal_strlit("use_declaration");
        reveal_strlit("const_item");
        reveal_strlit("static_item");
    }
    if n.is_kind("function_item") {
        add_rust_function(n, ast);
        let ghost a1 = ast@;
        export_if_public(n, ExportKind::Function, ast);
        proof {
            lemma_extended_trans(a0, a1, ast@, rust_function(*n), rust_export(*n, ExportKind::Function));
        }
    } else if n.is_kind("struct_item") || n.is_kind("enum_item") || n.is_kind("union_item") {
        add_rust_class(n, impls, ast);
        let ghost a1 = ast@;
        export_if_public(n, ExportKind::Class, ast);
        proof {
            lemma_extended_trans(
                a0,
                a1,
                ast@,
                rust_class(*n, impls_view(impls@)),
                rust_export(*n, ExportKind::Class),
            );
        }
    } else if n.is_kind("trait_item") {
        add_rust_interface(n, ast);
        let ghost a1 = ast@;
        export_if_public(n, ExportKind::Interface, ast);
        proof {
            lemma_extended_trans(a0, a1, ast@, rust_interface(*n), rust_export(*n, ExportKind::Interface));
        }
    } else if n.is_kind("use_declaration") {
        let source = use_path(&n.text);
        add_import(ast, ImportDecl { source, line: n.start_line() });
    } else if n.is_kind("const_item") || n.is_kind("static_item") {
        export_if_public(n, ExportKind::Value, ast);
    }
}

/// Records the symbols of a Rust tree, in pre-order over named nodes.
fn rust_visit(n: &SyntaxNode, impls: &Vec<(String, Vec<String>)>, ast: &mut FileAst)
    requires
        rows_fit(*n),
    ensures
        extended(old(ast)@, final(ast)@, rust_tree(*n, impls_view(impls@))),
    decreases *n,
{
    let ghost a0 = ast@;
    let ghost iv = impls_view(impls@);
    rust_node(n, impls, ast);
    let ghost a1 = ast@;
    let mut i: usize = 0;
    proof {
        lemma_extended_none(a1);
        assert(n.children@.take(0) =~= Seq::<SyntaxNode>::empty());
    }
    while i < n.children.len()
        invariant
            i <= n.children@.len(),
            rows_fit_in(n.children@),
            iv == impls_view(impls@),
            extended(a1, ast@, rust_forest(n.children@.take(i as int), iv)),
        decreases n.children@.len() - i,
    {
        let c = &n.children[i];
        assert(n.children@.take(i + 1).drop_last() == n.children@.take(i as int));
        assert(n.children@.take(i + 1).last() == *c);
        let ghost b = ast@;
        if c.named {
            proof {
                lemma_rows_fit_each(n.children@, i as int);
                assert(decreases_to!(*n => n.children@[i as int]));
            }
            rust_visit(c, impls, ast);
            proof {
                lemma_extended_trans(a1, b, ast@, rust_forest(n.children@.take(i as int), iv), rust_tree(*c, iv));
            }
        } else {
            proof {
                lemma_extended_none(b);
                lemma_extended_trans(a1, b, ast@, rust_forest(n.children@.take(i as int), iv), no_items());
            }
        }
        i += 1;
    }
    proof {
        assert(n.children@.take(n.children@.len() as int) == n.children@);
        lemma_extended_trans(a0, a1, ast@, rust_node_items(*n, iv), rust_forest(n.children@, iv));
    }
}

/// Extracts the symbols of a Rust syntax tree into `ast`.
pub fn rust(root: &SyntaxNode, ast: &mut FileAst)
    requires
        rows_fit(*root),
    ensures
        extended(old(ast)@, final(ast)@, rust_items(*root)),
{
    let mut impls: Vec<(String, Vec<String>)> = Vec::new();
    assert(impls_view(impls@) =~= Seq::<(Seq<char>, Seq<Seq<char>>)>::empty());
    collect_impls(&root.children, &mut impls);
    assert(impls_view(impls@) =~= impls_in(root.children@));
    rust_visit(root, &impls, ast);
}

} // verus!
