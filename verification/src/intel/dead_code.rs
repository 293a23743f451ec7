//! Dead code: functions with no detected callers that are neither exported
//! nor an entry point.
use vstd::prelude::*;

use crate::architecture::{file_id, fn_id};
use crate::entities::ast::{asts_view, AstView, ExportView, FunctionView};
use crate::entities::graph::{GraphView, NodeView};
use crate::entities::intel::DeadView;
use crate::entities::{DeadSymbol, EdgeKind, FileAst, Graph, GraphNode};
use crate::order::{
    dedup_runs, is_sorted, lemma_dedup_runs_last, lemma_seq_lt_total, lemma_seq_lt_trans,
    lemma_sort_contains, lemma_sort_sorted, order_total, order_transitive, seq_lt, sort_by_key,
    sort_seq, views, Comparison, SortKey, SpecOrder,
};
use crate::paths::path_str;
use crate::text::str_eq;

verus! {

/// The name of the entry point, `main`.
pub open spec fn main_name() -> Seq<char> {
    seq!['m', 'a', 'i', 'n']
}

/// Names of all exports of the parsed files.
pub open spec fn export_names(asts: Seq<AstView>) -> Seq<Seq<char>>
    decreases asts.len(),
{
    if asts.len() == 0 {
        Seq::empty()
    } else {
        export_names(asts.drop_last()) + asts.last().exports.map_values(|e: ExportView| e.name)
    }
}

/// Each function of the parsed files with its id, file by file.
pub open spec fn def_entries(asts: Seq<AstView>) -> Seq<(Seq<char>, DeadView)>
    decreases asts.len(),
{
    if asts.len() == 0 {
        Seq::empty()
    } else {
        let file = file_id(asts.last());
        def_entries(asts.drop_last()) + asts.last().functions.map_values(
            |f: FunctionView|
                (fn_id(file, f.name), DeadView { name: f.name, file, line: f.start_line }),
        )
    }
}

/// The last definition with id `id`.
pub open spec fn last_def(defs: Seq<(Seq<char>, DeadView)>, id: Seq<char>) -> Option<DeadView>
    decreases defs.len(),
{
    if defs.len() == 0 {
        None
    } else if defs.last().0 == id {
        Some(defs.last().1)
    } else {
        last_def(defs.drop_last(), id)
    }
}

/// Whether some call edge of `g` leads to `id`.
pub open spec fn called(g: GraphView, id: Seq<char>) -> bool {
    exists|k: int| 0 <= k < g.edges.len() && g.edges[k].kind == EdgeKind::Calls && #[trigger] g.edges[k].to == id
}

/// The distinct node ids of `g`, in ascending order.
pub open spec fn node_keys(g: GraphView) -> Seq<Seq<char>> {
    dedup_runs(sort_seq(g.nodes).map_values(|n: NodeView| n.id))
}

/// Definitions of the uncalled ids among `keys`, except entry points and
/// exported names, in key order.
pub open spec fn dead_candidates(
    keys: Seq<Seq<char>>,
    g: GraphView,
    defs: Seq<(Seq<char>, DeadView)>,
    exported: Seq<Seq<char>>,
) -> Seq<DeadView>
    decreases keys.len(),
{
    if keys.len() == 0 {
        Seq::empty()
    } else {
        let r = dead_candidates(keys.drop_last(), g, defs, exported);
        match last_def(defs, keys.last()) {
            Some(d) => if !called(g, keys.last()) && d.name != main_name() && !exported.contains(
                d.name,
            ) {
                r.push(d)
            } else {
                r
            },
            None => r,
        }
    }
}

/// Dead functions of a call graph, ordered by file and then line.
pub open spec fn dead_code_spec(g: GraphView, asts: Seq<AstView>) -> Seq<DeadView> {
    sort_seq(dead_candidates(node_keys(g), g, def_entries(asts), export_names(asts)))
}

impl SpecOrder for DeadView {
    /// Dead symbols order by file, then line.
    open spec fn order_le(&self, other: &Self) -> bool {
        if self.file != other.file {
            seq_lt(self.file, other.file)
        } else {
            self.line <= other.line
        }
    }
}

impl SortKey for DeadSymbol {
    fn sort_le_exec(&self, other: &Self) -> (r: bool) {
        match crate::order::compare_str(&self.file, &other.file) {
            Comparison::Less => true,
            Comparison::Greater => false,
            Comparison::Equal => self.line <= other.line,
        }
    }
}

/// Names of all exports of the parsed files.
fn exported_names(asts: &[FileAst]) -> (r: Vec<String>)
    ensures
        crate::entities::ast::strings_view(r@) == export_names(asts_view(asts@)),
{
    let ghost all = asts_view(asts@);
    let mut r: Vec<String> = Vec::new();
    let mut k: usize = 0;
    assert(all.take(0) =~= Seq::<AstView>::empty());
    assert(crate::entities::ast::strings_view(r@) =~= Seq::<Seq<char>>::empty());
    while k < asts.len()
        invariant
            k <= asts@.len(),
            all == asts_view(asts@),
            crate::entities::ast::strings_view(r@) == export_names(all.take(k as int)),
        decreases asts@.len() - k,
    {
        let ast = &asts[k];
        let ghost es = ast@.exports;
        let ghost r0 = crate::entities::ast::strings_view(r@);
        let mut m: usize = 0;
        assert(r0 + es.take(0).map_values(|e: ExportView| e.name) =~= r0);
        while m < ast.exports.len()
            invariant
                m <= es.len(),
                es == ast@.exports,
                es.len() == ast.exports@.len(),
                crate::entities::ast::strings_view(r@) == r0 + es.take(m as int).map_values(
                    |e: ExportView| e.name,
                ),
            decreases es.len() - m,
        {
            assert(es[m as int] == ast.exports@[m as int]@);
            let ghost before = r@;
            r.push(ast.exports[m].name.clone());
            assert(es.take(m + 1) == es.take(m as int).push(es[m as int]));
            assert(crate::entities::ast::strings_view(r@) =~= crate::entities::ast::strings_view(
                before,
            ).push(es[m as int].name));
            assert(es.take(m + 1).map_values(|e: ExportView| e.name) =~= es.take(
                m as int,
            ).map_values(|e: ExportView| e.name).push(es[m as int].name));
            assert(crate::entities::ast::strings_view(r@) =~= r0 + es.take(m + 1).map_values(
                |e: ExportView| e.name,
            ));
            m += 1;
        }
        assert(es.take(es.len() as int) == es);
        assert(all.take(k + 1).drop_last() == all.take(k as int));
        assert(all.take(k + 1).last() == ast@);
        k += 1;
    }
    assert(all.take(asts@.len() as int) == all);
    r
}

/// Views of definition entries.
pub open spec fn defs_view(s: Seq<(String, DeadSymbol)>) -> Seq<(Seq<char>, DeadView)> {
    s.map_values(|p: (String, DeadSymbol)| (p.0@, p.1@))
}

/// Each function of the parsed files with its id.
fn definitions(asts: &[FileAst]) -> (r: Vec<(String, DeadSymbol)>)
    ensures
        defs_view(r@) == def_entries(asts_view(asts@)),
{
    let ghost all = asts_view(asts@);
    let mut r: Vec<(String, DeadSymbol)> = Vec::new();
    let mut k: usize = 0;
    assert(all.take(0) =~= Seq::<AstView>::empty());
    assert(defs_view(r@) =~= Seq::<(Seq<char>, DeadView)>::empty());
    while k < asts.len()
        invariant
            k <= asts@.len(),
            all == asts_view(asts@),
            defs_view(r@) == def_entries(all.take(k as int)),
        decreases asts@.len() - k,
    {
        let ast = &asts[k];
        let file = path_str(&ast.path);
        let ghost fs = ast@.functions;
        let ghost r0 = defs_view(r@);
        let ghost f_of = |f: FunctionView|
            (fn_id(file@, f.name), DeadView { name: f.name, file: file@, line: f.start_line });
        let mut m: usize = 0;
        assert(r0 + fs.take(0).map_values(f_of) =~= r0);
        while m < ast.functions.len()
            invariant
                m <= fs.len(),
                fs == ast@.functions,
                fs.len() == ast.functions@.len(),
                f_of == (|f: FunctionView|
                    (fn_id(file@, f.name), DeadView { name: f.name, file: file@, line: f.start_line })),
                defs_view(r@) == r0 + fs.take(m as int).map_values(f_of),
            decreases fs.len() - m,
        {
            let f = &ast.functions[m];
            assert(fs[m as int] == f@);
            let id = crate::architecture::fn_id_str(&file, &f.name);
            let sym = DeadSymbol { name: f.name.clone(), file: file.clone(), line: f.start_line };
            assert(sym@ == DeadView { name: f.name@, file: file@, line: f.start_line });
            let ghost before = r@;
            r.push((id, sym));
            assert(fs.take(m + 1) == fs.take(m as int).push(fs[m as int]));
            assert(defs_view(r@) =~= defs_view(before).push(f_of(f@)));
            assert(fs.take(m + 1).map_values(f_of) =~= fs.take(m as int).map_values(f_of).push(
                f_of(f@),
            ));
            assert(defs_view(r@) =~= r0 + fs.take(m + 1).map_values(f_of));
            m += 1;
        }
        assert(fs.take(fs.len() as int) == fs);
        assert(all.take(k + 1).drop_last() == all.take(k as int));
        assert(all.take(k + 1).last() == ast@);
        assert(file@ == file_id(ast@));
        assert(fs.map_values(f_of) =~= ast@.functions.map_values(
            |f: FunctionView|
                (fn_id(file_id(ast@), f.name), DeadView { name: f.name, file: file_id(ast@), line: f.start_line }),
        ));
        k += 1;
    }
    assert(all.take(asts@.len() as int) == all);
    r
}

/// The last definition with id `id`.
fn find_def(defs: &Vec<(String, DeadSymbol)>, id: &str) -> (r: Option<DeadSymbol>)
    ensures
        match r {
            Some(d) => last_def(defs_view(defs@), id@) == Some(d@),
            None => last_def(defs_view(defs@), id@) is None,
        },
{
    let ghost s = defs_view(defs@);
    let mut i: usize = defs.len();
    assert(s.take(i as int) == s);
    while i > 0
        invariant
            i <= s.len(),
            s == defs_view(defs@),
            last_def(s, id@) == last_def(s.take(i as int), id@),
        decreases i,
    {
        assert(s.take(i as int).drop_last() == s.take(i - 1));
        assert(s.take(i as int).last() == s[i - 1]);
        if str_eq(&defs[i - 1].0, id) {
            let d = &defs[i - 1].1;
            return Some(DeadSymbol { name: d.name.clone(), file: d.file.clone(), line: d.line });
        }
        i -= 1;
    }
    None
}

/// Whether `names` holds `name`.
fn holds(names: &Vec<String>, name: &str) -> (r: bool)
    ensures
        r == crate::entities::ast::strings_view(names@).contains(name@),
{
    let ghost s = crate::entities::ast::strings_view(names@);
    let mut i: usize = 0;
    while i < names.len()
        invariant
            i <= names@.len(),
            s == crate::entities::ast::strings_view(names@),
            forall|j: int| 0 <= j < i ==> s[j] != name@,
        decreases names@.len() - i,
    {
        if str_eq(&names[i], name) {
            assert(s[i as int] == name@);
            return true;
        }
        i += 1;
    }
    false
}

/// Whether some call edge of the graph leads to `id`.
fn is_called(graph: &Graph, id: &str) -> (r: bool)
    ensures
        r == called(graph@, id@),
{
    let mut k: usize = 0;
    while k < graph.edges.len()
        invariant
            k <= graph.edges@.len(),
            forall|j: int|
                0 <= j < k ==> !(graph@.edges[j].kind == EdgeKind::Calls && graph@.edges[j].to == id@),
        decreases graph.edges@.len() - k,
    {
        let e = &graph.edges[k];
        assert(graph@.edges[k as int] == e@);
        if e.kind == EdgeKind::Calls && str_eq(&e.to, id) {
            assert(graph@.edges[k as int].kind == EdgeKind::Calls && graph@.edges[k as int].to
                == id@);
            return true;
        }
        k += 1;
    }
    false
}

/// The distinct node ids of the graph, in ascending order.
fn sorted_keys(graph: &Graph) -> (r: Vec<String>)
    ensures
        crate::entities::ast::strings_view(r@) == node_keys(graph@),
{
    let mut copies: Vec<GraphNode> = Vec::new();
    let mut i: usize = 0;
    while i < graph.nodes.len()
        invariant
            i <= graph.nodes@.len(),
            views(copies@) == views(graph.nodes@).take(i as int),
        decreases graph.nodes@.len() - i,
    {
        copies.push(graph.nodes[i].duplicate());
        assert(views(graph.nodes@)[i as int] == graph.nodes@[i as int]@);
        assert(views(graph.nodes@).take(i + 1) == views(graph.nodes@).take(i as int).push(
            graph.nodes@[i as int]@,
        ));
        assert(views(copies@) =~= views(graph.nodes@).take(i + 1));
        i += 1;
    }
    assert(views(graph.nodes@).take(graph.nodes@.len() as int) == views(graph.nodes@));
    proof {
        crate::architecture::lemma_node_order();
    }
    let sorted = sort_by_key(copies);
    let ghost ids = views(sorted@).map_values(|n: NodeView| n.id);
    let mut r: Vec<String> = Vec::new();
    let mut j: usize = 0;
    assert(crate::entities::ast::strings_view(r@) =~= dedup_runs(ids.take(0)));
    while j < sorted.len()
        invariant
            j <= sorted@.len(),
            ids == views(sorted@).map_values(|n: NodeView| n.id),
            crate::entities::ast::strings_view(r@) == dedup_runs(ids.take(j as int)),
            j > 0 ==> r@.len() > 0 && r@.last()@ == ids[j - 1],
        decreases sorted@.len() - j,
    {
        assert(ids[j as int] == sorted@[j as int].id@);
        assert(ids.take(j + 1).drop_last() == ids.take(j as int));
        assert(ids.take(j + 1).last() == ids[j as int]);
        let keep = if r.len() == 0 {
            true
        } else {
            !str_eq(&r[r.len() - 1], &sorted[j].id)
        };
        proof {
            if j > 0 {
                assert(ids.take(j + 1)[j - 1] == ids[j - 1]);
                lemma_dedup_runs_last(ids.take(j as int));
            }
        }
        let ghost before = r@;
        if keep {
            r.push(sorted[j].id.clone());
        }
        assert(crate::entities::ast::strings_view(r@) =~= dedup_runs(ids.take(j + 1)));
        j += 1;
    }
    assert(ids.take(sorted@.len() as int) == ids);
    r
}

/// Flags functions with no incoming call edges that are not exported or
/// named `main`. `call_graph` is the architecture call graph; `asts`
/// supplies exports and definition lines. The result is ordered by file,
/// then line.
pub fn find_dead_code(call_graph: &Graph, asts: &[FileAst]) -> (r: Vec<DeadSymbol>)
    ensures
        views(r@) == dead_code_spec(call_graph@, asts_view(asts@)),
{
    let exported = exported_names(asts);
    let defs = definitions(asts);
    let keys = sorted_keys(call_graph);
    let ghost ks = crate::entities::ast::strings_view(keys@);
    let ghost ex = crate::entities::ast::strings_view(exported@);
    let ghost ds = defs_view(defs@);
    let main_chars = vec!['m', 'a', 'i', 'n'];
    let main = crate::text::string_of(&main_chars);
    let mut dead: Vec<DeadSymbol> = Vec::new();
    let mut i: usize = 0;
    assert(views(dead@) =~= dead_candidates(ks.take(0), call_graph@, ds, ex));
    while i < keys.len()
        invariant
            i <= keys@.len(),
            ks == crate::entities::ast::strings_view(keys@),
            ex == crate::entities::ast::strings_view(exported@),
            ds == defs_view(defs@),
            main@ == main_name(),
            views(dead@) == dead_candidates(ks.take(i as int), call_graph@, ds, ex),
        decreases keys@.len() - i,
    {
        assert(ks.take(i + 1).drop_last() == ks.take(i as int));
        assert(ks.take(i + 1).last() == keys@[i as int]@);
        let ghost before = views(dead@);
        if !is_called(call_graph, &keys[i]) {
            match find_def(&defs, &keys[i]) {
                Some(d) => {
                    if !str_eq(&d.name, &main) && !holds(&exported, &d.name) {
                        dead.push(d);
                        assert(views(dead@) =~= before.push(dead@.last()@));
                    }
                },
                None => {},
            }
        }
        assert(views(dead@) == dead_candidates(ks.take(i + 1), call_graph@, ds, ex));
        i += 1;
    }
    assert(ks.take(keys@.len() as int) == ks);
    proof {
        lemma_dead_order();
    }
    sort_by_key(dead)
}

// --- Laws -------------------------------------------------------------------------

/// Whether `d` may be reported as dead: it is not an entry point, its name
/// is not exported, and it is the definition of some id among `keys` that
/// no call edge of `g` leads to.
pub open spec fn reportable(
    d: DeadView,
    keys: Seq<Seq<char>>,
    g: GraphView,
    defs: Seq<(Seq<char>, DeadView)>,
    exported: Seq<Seq<char>>,
) -> bool {
    &&& d.name != main_name()
    &&& !exported.contains(d.name)
    &&& exists|j: int|
        0 <= j < keys.len() && last_def(defs, #[trigger] keys[j]) == Some(d) && !called(g, keys[j])
}

/// Every candidate is reportable.
proof fn lemma_candidates_reportable(
    keys: Seq<Seq<char>>,
    g: GraphView,
    defs: Seq<(Seq<char>, DeadView)>,
    exported: Seq<Seq<char>>,
)
    ensures
        forall|k: int|
            0 <= k < dead_candidates(keys, g, defs, exported).len() ==> reportable(
                #[trigger] dead_candidates(keys, g, defs, exported)[k],
                keys,
                g,
                defs,
                exported,
            ),
    decreases keys.len(),
{
    if keys.len() > 0 {
        let p = keys.drop_last();
        lemma_candidates_reportable(p, g, defs, exported);
        let r = dead_candidates(keys, g, defs, exported);
        let q = dead_candidates(p, g, defs, exported);
        assert forall|k: int| 0 <= k < r.len() implies reportable(#[trigger] r[k], keys, g, defs, exported) by {
            if k < q.len() {
                assert(r[k] == q[k]);
                assert(reportable(q[k], p, g, defs, exported));
                let j = choose|j: int|
                    0 <= j < p.len() && last_def(defs, #[trigger] p[j]) == Some(q[k]) && !called(g, p[j]);
                assert(keys[j] == p[j]);
            } else {
                let j = keys.len() - 1;
                assert(last_def(defs, keys[j]) == Some(r[k]));
            }
        }
    }
}

/// Dead symbols order totally and transitively.
proof fn lemma_dead_order()
    ensures
        order_total::<DeadView>(),
        order_transitive::<DeadView>(),
{
    assert forall|a: DeadView, b: DeadView| #[trigger] a.order_le(&b) || b.order_le(&a) by {
        lemma_seq_lt_total(a.file, b.file);
    }
    assert forall|a: DeadView, b: DeadView, c: DeadView|
        #![trigger a.order_le(&b), b.order_le(&c)]
        a.order_le(&b) && b.order_le(&c) implies a.order_le(&c) by {
        lemma_seq_lt_total(a.file, c.file);
        if seq_lt(a.file, b.file) && seq_lt(b.file, c.file) {
            lemma_seq_lt_trans(a.file, b.file, c.file);
        }
    }
}

/// Dead-code reports are ordered by file and then line, and each reported
/// function is neither `main` nor exported, and is the definition of a node
/// of the call graph that no call edge leads to.
pub proof fn law_dead_code_reportable(g: GraphView, asts: Seq<AstView>)
    ensures
        is_sorted(dead_code_spec(g, asts)),
        forall|k: int|
            0 <= k < dead_code_spec(g, asts).len() ==> reportable(
                #[trigger] dead_code_spec(g, asts)[k],
                node_keys(g),
                g,
                def_entries(asts),
                export_names(asts),
            ),
{
    let c = dead_candidates(node_keys(g), g, def_entries(asts), export_names(asts));
    lemma_dead_order();
    lemma_sort_sorted(c);
    lemma_sort_contains(c);
    lemma_candidates_reportable(node_keys(g), g, def_entries(asts), export_names(asts));
    let r = dead_code_spec(g, asts);
    assert forall|k: int| 0 <= k < r.len() implies reportable(
        #[trigger] r[k],
        node_keys(g),
        g,
        def_entries(asts),
        export_names(asts),
    ) by {
        assert(c.contains(r[k]));
        let m = choose|m: int| 0 <= m < c.len() && c[m] == r[k];
        assert(reportable(c[m], node_keys(g), g, def_entries(asts), export_names(asts)));
    }
}

} // verus!
