use vstd::prelude::*;

verus! {

/// Metrics of a single function or method.
#[derive(Clone, PartialEq, Eq, Debug)]
pub struct FunctionMetrics {
    /// Function name as written in source.
    pub name: String,
    /// 1-based line where the function starts.
    pub start_line: usize,
    /// Number of lines the function spans.
    pub line_count: usize,
    /// McCabe cyclomatic complexity: number of branch points plus one.
    ///
    /// Branch points are `if`, loops, `match`/`case` arms, `catch`,
    /// short-circuit operators and ternaries, as defined per language.
    pub cyclomatic_complexity: u32,
    /// Deepest level of nested blocks inside the function body.
    pub nesting_depth: u32,
}

/// Line and structure metrics of a single source file.
#[derive(Clone, PartialEq, Eq, Debug)]
pub struct FileMetrics {
    /// Total number of lines, including blank ones.
    pub lines_total: usize,
    /// Lines containing code.
    pub lines_code: usize,
    /// Lines consisting only of comments.
    pub lines_comment: usize,
    /// Per-function metrics; empty when AST analysis is unavailable
    /// for the file's language.
    pub functions: Vec<FunctionMetrics>,
}

/// The largest complexity among `fs`, or none when `fs` is empty.
pub open spec fn max_complexity_of(fs: Seq<FunctionMetrics>) -> Option<u32>
    decreases fs.len(),
{
    if fs.len() == 0 {
        None
    } else {
        let c = fs.last().cyclomatic_complexity;
        match max_complexity_of(fs.drop_last()) {
            Some(m) => Some(if m >= c { m } else { c }),
            None => Some(c),
        }
    }
}

/// The maximum is one of the complexities and bounds them all.
pub proof fn lemma_max_complexity(fs: Seq<FunctionMetrics>)
    ensures
        max_complexity_of(fs) matches Some(m) ==> (exists|i: int|
            0 <= i < fs.len() && fs[i].cyclomatic_complexity == m) && (forall|i: int|
            0 <= i < fs.len() ==> fs[i].cyclomatic_complexity <= m),
        max_complexity_of(fs) is None <==> fs.len() == 0,
    decreases fs.len(),
{
    if fs.len() > 0 {
        lemma_max_complexity(fs.drop_last());
        let m = max_complexity_of(fs).unwrap();
        let c = fs.last().cyclomatic_complexity;
        assert forall|i: int| 0 <= i < fs.len() implies fs[i].cyclomatic_complexity <= m by {
            if i < fs.len() - 1 {
                assert(fs[i] == fs.drop_last()[i]);
            }
        }
        if m == c {
            assert(fs[fs.len() - 1].cyclomatic_complexity == m);
        } else {
            let i = choose|i: int|
                0 <= i < fs.drop_last().len() && fs.drop_last()[i].cyclomatic_complexity == m;
            assert(fs[i] == fs.drop_last()[i]);
        }
    }
}

impl FileMetrics {
    /// Highest cyclomatic complexity across functions, if any were analyzed.
    pub fn max_complexity(&self) -> (r: Option<u32>)
        ensures
            r == max_complexity_of(self.functions@),
    {
        let mut best: Option<u32> = None;
        let mut i: usize = 0;
        assert(self.functions@.take(0) =~= Seq::<FunctionMetrics>::empty());
        while i < self.functions.len()
            invariant
                i <= self.functions@.len(),
                best == max_complexity_of(self.functions@.take(i as int)),
            decreases self.functions@.len() - i,
        {
            let c = self.functions[i].cyclomatic_complexity;
            assert(self.functions@.take(i + 1).drop_last() == self.functions@.take(i as int));
            best = match best {
                Some(m) => Some(if m >= c { m } else { c }),
                None => Some(c),
            };
            i += 1;
        }
        assert(self.functions@.take(self.functions@.len() as int) == self.functions@);
        best
    }
}

} // verus!
