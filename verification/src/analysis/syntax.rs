//! Syntax trees as tree-sitter builds them, copied into plain values.
use vstd::prelude::*;

use crate::text::{chars_of, eq_lit, str_eq};

verus! {

#[verifier::external_type_specification]
#[verifier::external_body]
pub struct ExSyntaxNode<'a>(tree_sitter::Node<'a>);

/// A grammar DevPilot parses with.
#[derive(Clone, Copy, PartialEq, Eq, Structural, Debug)]
pub enum Grammar {
    /// `tree-sitter-rust`.
    Rust,
    /// `tree-sitter-typescript`, TypeScript dialect.
    TypeScript,
    /// `tree-sitter-typescript`, TSX dialect.
    Tsx,
    /// `tree-sitter-javascript` (also JSX).
    JavaScript,
}

/// A node of a syntax tree.
#[derive(Debug)]
pub struct SyntaxNode {
    /// The grammar's name for the node's kind.
    pub kind: String,
    /// Whether the node is named (not punctuation or a keyword token).
    pub named: bool,
    /// The field under which the parent holds the node, if any.
    pub field: Option<String>,
    /// The source text the node spans (empty if it is not UTF-8).
    pub text: String,
    /// 0-based row where the node starts.
    pub start_row: usize,
    /// 0-based row where the node ends.
    pub end_row: usize,
    /// All children, in order.
    pub children: Vec<SyntaxNode>,
}

/// What parsing produced.
#[derive(Debug)]
pub enum ParseOutcome {
    /// The syntax tree of the file.
    Tree(SyntaxNode),
    /// The parser refused the grammar, for the given reason.
    LanguageRejected(String),
    /// The parser returned no tree.
    NoTree,
}

/// What tree-sitter makes of `content` with `grammar`.
pub uninterp spec fn parsed(grammar: Grammar, content: Seq<char>) -> ParseOutcome;

/// Parses `content` with tree-sitter (`Parser::set_language`, then
/// `Parser::parse`) and copies the tree. The result is named `parsed`.
/// Field names are copied per child with `Node::field_name_for_child`.
#[verifier::external_body]
pub(crate) fn parse_tree(grammar: Grammar, content: &str) -> (r: ParseOutcome)
    ensures
        r == parsed(grammar, content@),
{
    let language: tree_sitter::Language = match grammar {
        Grammar::Rust => tree_sitter_rust::LANGUAGE.into(),
        Grammar::TypeScript => tree_sitter_typescript::LANGUAGE_TYPESCRIPT.into(),
        Grammar::Tsx => tree_sitter_typescript::LANGUAGE_TSX.into(),
        Grammar::JavaScript => tree_sitter_javascript::LANGUAGE.into(),
    };
    let mut parser = tree_sitter::Parser::new();
    if let Err(error) = parser.set_language(&language) {
        return ParseOutcome::LanguageRejected(error.to_string());
    }
    match parser.parse(content, None) {
        Some(tree) => ParseOutcome::Tree(syntax_copy(tree.root_node(), content.as_bytes(), None)),
        None => ParseOutcome::NoTree,
    }
}

/// A copy of a tree-sitter node and its children.
#[verifier::external_body]
fn syntax_copy(node: tree_sitter::Node, src: &[u8], field: Option<&str>) -> SyntaxNode {
    let children = (0..node.child_count())
        .map(|i| syntax_copy(node.child(i).unwrap(), src, node.field_name_for_child(i)))
        .collect();
    SyntaxNode {
        kind: node.kind().to_string(),
        named: node.is_named(),
        field: field.map(|f| f.to_string()),
        text: node.utf8_text(src).unwrap_or("").to_string(),
        start_row: node.start_position().row,
        end_row: node.end_position().row,
        children,
    }
}

// --- Reading nodes -----------------------------------------------------------

/// Whether every row of a tree can be counted from one (`row + 1` fits).
pub open spec fn rows_fit(n: SyntaxNode) -> bool
    decreases n,
{
    n.start_row < usize::MAX && n.end_row < usize::MAX && rows_fit_in(n.children@)
}

/// Whether every row of the trees `cs` can be counted from one.
pub open spec fn rows_fit_in(cs: Seq<SyntaxNode>) -> bool
    decreases cs,
{
    cs.len() == 0 || (rows_fit_in(cs.drop_last()) && rows_fit(cs.last()))
}

/// Checks `rows_fit`.
pub fn check_rows(n: &SyntaxNode) -> (r: bool)
    ensures
        r == rows_fit(*n),
    decreases *n,
{
    if n.start_row == usize::MAX || n.end_row == usize::MAX {
        return false;
    }
    let mut i: usize = 0;
    assert(n.children@.take(0) =~= Seq::<SyntaxNode>::empty());
    while i < n.children.len()
        invariant
            i <= n.children@.len(),
            rows_fit_in(n.children@.take(i as int)),
        decreases n.children@.len() - i,
    {
        assert(n.children@.take(i + 1).drop_last() == n.children@.take(i as int));
        assert(n.children@.take(i + 1).last() == n.children@[i as int]);
        proof {
            assert(decreases_to!(*n => n.children@[i as int]));
        }
        if !check_rows(&n.children[i]) {
            proof {
                if rows_fit(*n) {
                    lemma_rows_fit_each(n.children@, i as int);
                }
            }
            return false;
        }
        i += 1;
    }
    assert(n.children@.take(n.children@.len() as int) == n.children@);
    true
}

/// Rows fitting in a list of trees fit in each prefix.
pub proof fn lemma_rows_fit_prefix(cs: Seq<SyntaxNode>, k: int)
    requires
        0 <= k <= cs.len(),
        rows_fit_in(cs),
    ensures
        rows_fit_in(cs.take(k)),
    decreases cs.len(),
{
    if k < cs.len() {
        lemma_rows_fit_prefix(cs.drop_last(), k);
        assert(cs.drop_last().take(k) == cs.take(k));
    } else {
        assert(cs.take(k) == cs);
    }
}

/// Rows fitting in a list of trees fit in each tree.
pub proof fn lemma_rows_fit_each(cs: Seq<SyntaxNode>, i: int)
    requires
        0 <= i < cs.len(),
        rows_fit_in(cs),
    ensures
        rows_fit(cs[i]),
    decreases cs.len(),
{
    if i < cs.len() - 1 {
        lemma_rows_fit_each(cs.drop_last(), i);
    }
}

/// The first child held under field `f`.
pub open spec fn field_child(cs: Seq<SyntaxNode>, f: Seq<char>) -> Option<SyntaxNode>
    decreases cs.len(),
{
    if cs.len() == 0 {
        None
    } else if cs[0].field matches Some(g) && g@ == f {
        Some(cs[0])
    } else {
        field_child(cs.drop_first(), f)
    }
}

/// The child of `n` under field `f` (`Node::child_by_field_name`).
pub open spec fn field_of(n: SyntaxNode, f: Seq<char>) -> Option<SyntaxNode> {
    field_child(n.children@, f)
}

/// The name of a node: the text of its `name` field.
pub open spec fn name_of(n: SyntaxNode) -> Option<Seq<char>> {
    match field_of(n, "name"@) {
        Some(c) => Some(c.text@),
        None => None,
    }
}

/// The 1-based first line of a node.
pub open spec fn start_line(n: SyntaxNode) -> usize {
    (n.start_row + 1) as usize
}

/// The 1-based last line of a node.
pub open spec fn end_line(n: SyntaxNode) -> usize {
    (n.end_row + 1) as usize
}

/// The named children among `cs`, in order.
pub open spec fn named_among(cs: Seq<SyntaxNode>) -> Seq<SyntaxNode>
    decreases cs.len(),
{
    if cs.len() == 0 {
        Seq::empty()
    } else if cs.last().named {
        named_among(cs.drop_last()).push(cs.last())
    } else {
        named_among(cs.drop_last())
    }
}

/// Whether some named child of `n` has kind `k`.
pub open spec fn has_named_kind(n: SyntaxNode, k: Seq<char>) -> bool {
    exists|i: int| 0 <= i < n.children@.len() && n.children@[i].named && #[trigger] n.children@[i].kind@ == k
}

/// Whether some child of `n`, named or not, has kind `k`.
pub open spec fn has_kind(n: SyntaxNode, k: Seq<char>) -> bool {
    exists|i: int| 0 <= i < n.children@.len() && #[trigger] n.children@[i].kind@ == k
}

impl SyntaxNode {
    /// The child held under field `f` (`Node::child_by_field_name`).
    pub fn field(&self, f: &str) -> (r: Option<&SyntaxNode>)
        ensures
            match r {
                Some(c) => field_of(*self, f@) == Some(*c),
                None => field_of(*self, f@) is None,
            },
    {
        let mut i: usize = 0;
        assert(self.children@.skip(0) == self.children@);
        while i < self.children.len()
            invariant
                i <= self.children@.len(),
                field_child(self.children@, f@) == field_child(self.children@.skip(i as int), f@),
            decreases self.children@.len() - i,
        {
            assert(self.children@.skip(i as int)[0] == self.children@[i as int]);
            assert(self.children@.skip(i as int).drop_first() == self.children@.skip(i + 1));
            match &self.children[i].field {
                Some(g) => {
                    if str_eq(g, f) {
                        return Some(&self.children[i]);
                    }
                },
                None => {},
            }
            i += 1;
        }
        None
    }

    /// The text of the `name` field.
    pub fn name(&self) -> (r: Option<String>)
        ensures
            match r {
                Some(s) => name_of(*self) == Some(s@),
                None => name_of(*self) is None,
            },
    {
        match self.field("name") {
            Some(c) => Some(c.text.clone()),
            None => None,
        }
    }

    /// The 1-based first line.
    pub fn start_line(&self) -> (r: usize)
        requires
            self.start_row < usize::MAX,
        ensures
            r == start_line(*self),
    {
        self.start_row + 1
    }

    /// The 1-based last line.
    pub fn end_line(&self) -> (r: usize)
        requires
            self.end_row < usize::MAX,
        ensures
            r == end_line(*self),
    {
        self.end_row + 1
    }

    /// Whether the node has kind `k`.
    pub fn is_kind(&self, k: &str) -> (r: bool)
        ensures
            r == (self.kind@ == k@),
    {
        str_eq(&self.kind, k)
    }

    /// Whether a named child has kind `k`.
    pub fn has_named_kind(&self, k: &str) -> (r: bool)
        ensures
            r == has_named_kind(*self, k@),
    {
        let mut i: usize = 0;
        while i < self.children.len()
            invariant
                i <= self.children@.len(),
                forall|j: int| 0 <= j < i ==> !(self.children@[j].named && self.children@[j].kind@ == k@),
            decreases self.children@.len() - i,
        {
            if self.children[i].named && str_eq(&self.children[i].kind, k) {
                return true;
            }
            i += 1;
        }
        false
    }

    /// Whether any child has kind `k`.
    pub fn has_kind(&self, k: &str) -> (r: bool)
        ensures
            r == has_kind(*self, k@),
    {
        let mut i: usize = 0;
        while i < self.children.len()
            invariant
                i <= self.children@.len(),
                forall|j: int| 0 <= j < i ==> self.children@[j].kind@ != k@,
            decreases self.children@.len() - i,
        {
            if str_eq(&self.children[i].kind, k) {
                return true;
            }
            i += 1;
        }
        false
    }
}

/// The child under a field is one of the children.
pub proof fn lemma_field_child_member(cs: Seq<SyntaxNode>, f: Seq<char>)
    ensures
        field_child(cs, f) matches Some(c) ==> exists|i: int| 0 <= i < cs.len() && cs[i] == c,
    decreases cs.len(),
{
    if cs.len() > 0 {
        lemma_field_child_member(cs.drop_first(), f);
        if let Some(c) = field_child(cs.drop_first(), f) {
            if !(cs[0].field matches Some(g) && g@ == f) {
                let i = choose|i: int| 0 <= i < cs.drop_first().len() && cs.drop_first()[i] == c;
                assert(cs[i + 1] == c);
            }
        }
        if cs[0].field matches Some(g) && g@ == f {
            assert(cs[0] == field_child(cs, f).unwrap());
        }
    }
}

/// The rows of the child under a field fit when the node's do.
pub proof fn lemma_field_rows(n: SyntaxNode, f: Seq<char>)
    requires
        rows_fit(n),
    ensures
        field_of(n, f) matches Some(c) ==> rows_fit(c),
{
    lemma_field_child_member(n.children@, f);
    if let Some(c) = field_of(n, f) {
        let i = choose|i: int| 0 <= i < n.children@.len() && n.children@[i] == c;
        lemma_rows_fit_each(n.children@, i);
    }
}

} // verus!
