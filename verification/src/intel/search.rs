//! Code search: files and symbols ranked by overlap with a query.
use vstd::prelude::*;

use crate::architecture::file_id;
use crate::entities::ast::{asts_view, AstView, ClassView, FunctionView, InterfaceView};
use crate::entities::intel::HitView;
use crate::entities::{FileAst, SearchHit};
use crate::order::{
    is_sorted, lemma_seq_lt_total, lemma_seq_lt_trans, lemma_sort_contains, lemma_sort_multiset,
    lemma_sort_sorted, lemma_sorted_take, order_total, order_transitive, seq_lt, sort_by_key,
    sort_seq, views, Comparison, SortKey, SpecOrder,
};
use crate::paths::path_str;
use crate::text::{
    chars_of, contains, contains_sub, has_prefix, lowercase, pieces_view, slice_to_vec, split,
    split_chars, starts_with, to_lowercase, utf8_len, utf8_length, Separator,
};

verus! {

/// Maximum search hits returned.
pub const MAX_HITS: usize = 30;

/// The first (up to) four characters of `word`.
pub open spec fn word_prefix(word: Seq<char>) -> Seq<char> {
    if word.len() < 4 {
        word
    } else {
        word.take(4)
    }
}

/// Whether a query `word` matches `haystack`: it occurs in the lowercased
/// haystack, or its first four characters (four or more bytes) begin one
/// of the haystack's alphanumeric tokens of four or more bytes (so
/// "authentication" matches `authenticate` and `auth.rs`).
pub open spec fn word_matches_spec(word: Seq<char>, haystack: Seq<char>) -> bool {
    let h = lowercase(haystack);
    let tokens = split(h, Separator::NonAlphanumeric);
    contains_sub(h, word) || (utf8_len(word_prefix(word)) >= 4 && exists|i: int|
        0 <= i < tokens.len() && utf8_len(#[trigger] tokens[i]) >= 4 && has_prefix(
            tokens[i],
            word_prefix(word),
        ))
}

/// The pieces of `ps` of three or more bytes.
pub open spec fn long_words(ps: Seq<Seq<char>>) -> Seq<Seq<char>>
    decreases ps.len(),
{
    if ps.len() == 0 {
        Seq::empty()
    } else if utf8_len(ps.last()) >= 3 {
        long_words(ps.drop_last()).push(ps.last())
    } else {
        long_words(ps.drop_last())
    }
}

/// The lowercased words of three or more bytes of a query.
pub open spec fn query_words(query: Seq<char>) -> Seq<Seq<char>> {
    long_words(split(query, Separator::NonAlphanumeric)).map_values(|w: Seq<char>| lowercase(w))
}

/// How many of `words` match `haystack`.
pub open spec fn match_count(words: Seq<Seq<char>>, haystack: Seq<char>) -> nat
    decreases words.len(),
{
    if words.len() == 0 {
        0
    } else {
        match_count(words.drop_last(), haystack) + if word_matches_spec(words.last(), haystack) {
            1nat
        } else {
            0nat
        }
    }
}

/// Hits for the named symbols `syms` (name and line) of the file at `path`:
/// three points per word matching the name plus one per word matching the
/// path, when that is positive.
pub open spec fn symbol_hits(
    words: Seq<Seq<char>>,
    path: Seq<char>,
    syms: Seq<(Seq<char>, usize)>,
) -> Seq<HitView>
    decreases syms.len(),
{
    if syms.len() == 0 {
        Seq::empty()
    } else {
        let r = symbol_hits(words, path, syms.drop_last());
        let score = 3 * match_count(words, syms.last().0) + match_count(words, path);
        if score > 0 {
            r.push(
                HitView {
                    path,
                    symbol: Some(syms.last().0),
                    line: syms.last().1,
                    score: score as usize,
                },
            )
        } else {
            r
        }
    }
}

/// Hits in one parsed file: its functions, classes and interfaces, then the
/// file itself when its path matches.
pub open spec fn file_hits(words: Seq<Seq<char>>, a: AstView) -> Seq<HitView> {
    let path = file_id(a);
    let path_score = match_count(words, path);
    symbol_hits(words, path, a.functions.map_values(|f: FunctionView| (f.name, f.start_line)))
        + symbol_hits(words, path, a.classes.map_values(|c: ClassView| (c.name, c.start_line)))
        + symbol_hits(
        words,
        path,
        a.interfaces.map_values(|i: InterfaceView| (i.name, i.start_line)),
    ) + if path_score > 0 {
        seq![HitView { path, symbol: None, line: 1, score: path_score as usize }]
    } else {
        Seq::empty()
    }
}

/// Hits in the parsed files, file by file.
pub open spec fn all_hits(words: Seq<Seq<char>>, asts: Seq<AstView>) -> Seq<HitView>
    decreases asts.len(),
{
    if asts.len() == 0 {
        Seq::empty()
    } else {
        all_hits(words, asts.drop_last()) + file_hits(words, asts.last())
    }
}

impl SpecOrder for HitView {
    /// Hits order by descending score, then path, then line.
    open spec fn order_le(&self, other: &Self) -> bool {
        if self.score != other.score {
            self.score > other.score
        } else if self.path != other.path {
            seq_lt(self.path, other.path)
        } else {
            self.line <= other.line
        }
    }
}

/// The best `MAX_HITS` hits for `query`, by descending score, then path,
/// then line; none when the query has no word of three or more bytes.
pub open spec fn search_spec(query: Seq<char>, asts: Seq<AstView>) -> Seq<HitView> {
    let words = query_words(query);
    if words.len() == 0 {
        Seq::empty()
    } else {
        let s = sort_seq(all_hits(words, asts));
        if s.len() <= MAX_HITS {
            s
        } else {
            s.take(MAX_HITS as int)
        }
    }
}

/// Total UTF-8 length of the pieces `ps`.
pub open spec fn utf8_total(ps: Seq<Seq<char>>) -> nat
    decreases ps.len(),
{
    if ps.len() == 0 {
        0
    } else {
        utf8_total(ps.drop_last()) + utf8_len(ps.last())
    }
}

/// Each long word takes three or more bytes.
pub(crate) proof fn lemma_long_words_bytes(ps: Seq<Seq<char>>)
    ensures
        3 * long_words(ps).len() <= utf8_total(ps),
    decreases ps.len(),
{
    if ps.len() > 0 {
        lemma_long_words_bytes(ps.drop_last());
    }
}

/// The pieces of a split take no more bytes than the whole.
pub(crate) proof fn lemma_split_bytes(s: Seq<char>, sep: Separator)
    ensures
        utf8_total(split(s, sep)) <= utf8_len(s),
    decreases s.len(),
{
    if s.len() == 0 {
        let e = Seq::<char>::empty();
        assert(split(s, sep) == seq![e]);
        assert(seq![e].drop_last() == Seq::<Seq<char>>::empty());
        assert(utf8_total(seq![e]) == utf8_total(Seq::<Seq<char>>::empty()) + utf8_len(e));
    } else {
        let t = s.drop_last();
        lemma_split_bytes(t, sep);
        crate::text::lemma_split_nonempty(t, sep);
        let p = split(t, sep);
        assert(utf8_len(s) == utf8_len(t) + crate::text::utf8_width(s.last()));
        assert(utf8_total(p) == utf8_total(p.drop_last()) + utf8_len(p.last()));
        if crate::text::is_sep(sep, s.last()) {
            let q = p.push(Seq::<char>::empty());
            assert(split(s, sep) == q);
            assert(q.drop_last() == p);
            assert(utf8_total(q) == utf8_total(p) + utf8_len(Seq::<char>::empty()));
        } else {
            let q = p.update(p.len() - 1, p.last().push(s.last()));
            assert(split(s, sep) == q);
            assert(q.drop_last() == p.drop_last());
            assert(q.last() == p.last().push(s.last()));
            assert(p.last().push(s.last()).drop_last() == p.last());
            assert(utf8_len(p.last().push(s.last())) == utf8_len(p.last()) + crate::text::utf8_width(
                s.last(),
            ));
            assert(utf8_total(q) == utf8_total(q.drop_last()) + utf8_len(q.last()));
        }
    }
}

impl SortKey for SearchHit {
    fn sort_le_exec(&self, other: &Self) -> (r: bool) {
        if self.score != other.score {
            self.score > other.score
        } else {
            match crate::order::compare_str(&self.path, &other.path) {
                Comparison::Less => true,
                Comparison::Greater => false,
                Comparison::Equal => self.line <= other.line,
            }
        }
    }
}

/// Whether a query `word` matches a `haystack`, by substring or by a shared
/// 4-character prefix with one of the haystack's identifier tokens.
pub fn word_matches(word: &str, haystack: &str) -> (r: bool)
    ensures
        r == word_matches_spec(word@, haystack@),
{
    let lowered = to_lowercase(haystack);
    let h = chars_of(&lowered);
    let w = chars_of(word);
    if contains(&h, &w) {
        return true;
    }
    let k: usize = if w.len() < 4 {
        w.len()
    } else {
        4
    };
    let prefix = slice_to_vec(&w, 0, k);
    assert(prefix@ == word_prefix(word@)) by {
        if w@.len() < 4 {
            assert(w@.subrange(0, k as int) == w@);
        }
    }
    if utf8_length(&prefix) < 4 {
        return false;
    }
    let tokens = split_chars(&h, Separator::NonAlphanumeric);
    let ghost tv = pieces_view(tokens@);
    let mut i: usize = 0;
    while i < tokens.len()
        invariant
            i <= tokens@.len(),
            tv == pieces_view(tokens@),
            tv == split(h@, Separator::NonAlphanumeric),
            h@ == lowercase(haystack@),
            prefix@ == word_prefix(word@),
            utf8_len(prefix@) >= 4,
            forall|j: int|
                0 <= j < i ==> !(utf8_len(#[trigger] tv[j]) >= 4 && has_prefix(tv[j], prefix@)),
        decreases tokens@.len() - i,
    {
        assert(tv[i as int] == tokens@[i as int]@);
        if utf8_length(&tokens[i]) >= 4 && starts_with(&tokens[i], &prefix) {
            assert(utf8_len(tv[i as int]) >= 4 && has_prefix(tv[i as int], prefix@));
            assert(h@ == lowercase(haystack@));
            assert(word_matches_spec(word@, haystack@));
            return true;
        }
        i += 1;
    }
    false
}

/// How many of `words` match `haystack`.
fn count_matches(words: &Vec<String>, haystack: &str) -> (r: usize)
    ensures
        r == match_count(crate::entities::ast::strings_view(words@), haystack@),
        r <= words@.len(),
{
    let ghost ws = crate::entities::ast::strings_view(words@);
    let mut n: usize = 0;
    let mut i: usize = 0;
    assert(ws.take(0) =~= Seq::<Seq<char>>::empty());
    while i < words.len()
        invariant
            i <= words@.len(),
            ws == crate::entities::ast::strings_view(words@),
            n <= i,
            n == match_count(ws.take(i as int), haystack@),
        decreases words@.len() - i,
    {
        assert(ws.take(i + 1).drop_last() == ws.take(i as int));
        assert(ws.take(i + 1).last() == words@[i as int]@);
        if word_matches(&words[i], haystack) {
            n += 1;
        }
        i += 1;
    }
    assert(ws.take(words@.len() as int) == ws);
    n
}

/// The lowercased words of three or more bytes of a query.
pub(crate) fn words_of(query: &str) -> (r: Vec<String>)
    ensures
        crate::entities::ast::strings_view(r@) == query_words(query@),
        3 * r@.len() <= utf8_len(query@),
{
    let q = chars_of(query);
    let pieces = split_chars(&q, Separator::NonAlphanumeric);
    let ghost pv = pieces_view(pieces@);
    let mut r: Vec<String> = Vec::new();
    let mut i: usize = 0;
    assert(pv.take(0) =~= Seq::<Seq<char>>::empty());
    assert(crate::entities::ast::strings_view(r@) =~= long_words(pv.take(0)).map_values(
        |w: Seq<char>| lowercase(w),
    ));
    while i < pieces.len()
        invariant
            i <= pieces@.len(),
            pv == pieces_view(pieces@),
            crate::entities::ast::strings_view(r@) == long_words(pv.take(i as int)).map_values(
                |w: Seq<char>| lowercase(w),
            ),
            r@.len() == long_words(pv.take(i as int)).len(),
        decreases pieces@.len() - i,
    {
        assert(pv.take(i + 1).drop_last() == pv.take(i as int));
        assert(pv.take(i + 1).last() == pieces@[i as int]@);
        let ghost before = r@;
        if utf8_length(&pieces[i]) >= 3 {
            let piece = crate::text::string_of(&pieces[i]);
            r.push(to_lowercase(&piece));
            assert(crate::entities::ast::strings_view(r@) =~= crate::entities::ast::strings_view(
                before,
            ).push(lowercase(pieces@[i as int]@)));
        }
        assert(crate::entities::ast::strings_view(r@) =~= long_words(pv.take(i + 1)).map_values(
            |w: Seq<char>| lowercase(w),
        ));
        i += 1;
    }
    assert(pv.take(pieces@.len() as int) == pv);
    proof {
        lemma_long_words_bytes(pv);
        lemma_split_bytes(q@, Separator::NonAlphanumeric);
    }
    r
}

/// A hit for a symbol or a path.
fn make_hit(path: &str, symbol: Option<&str>, line: usize, score: usize) -> (r: SearchHit)
    ensures
        r@ == (HitView {
            path: path@,
            symbol: match symbol {
                Some(s) => Some(s@),
                None => None,
            },
            line,
            score,
        }),
{
    let symbol = match symbol {
        Some(s) => Some(s.to_owned()),
        None => None,
    };
    SearchHit { path: path.to_owned(), symbol, line, score }
}

/// Hits of one parsed file.
fn push_file_hits(words: &Vec<String>, ast: &FileAst, hits: &mut Vec<SearchHit>)
    requires
        4 * words@.len() <= usize::MAX,
    ensures
        views(final(hits)@) == views(old(hits)@) + file_hits(
            crate::entities::ast::strings_view(words@),
            ast@,
        ),
{
    let ghost ws = crate::entities::ast::strings_view(words@);
    let path = path_str(&ast.path);
    assert(path@ == file_id(ast@));
    let path_score = count_matches(words, &path);
    let ghost h0 = views(hits@);
    // Functions.
    let ghost fs = ast@.functions.map_values(|f: FunctionView| (f.name, f.start_line));
    let mut m: usize = 0;
    assert(fs.take(0) =~= Seq::<(Seq<char>, usize)>::empty());
    assert(h0 + symbol_hits(ws, path@, fs.take(0)) =~= h0);
    while m < ast.functions.len()
        invariant
            m <= ast.functions@.len(),
            fs == ast@.functions.map_values(|f: FunctionView| (f.name, f.start_line)),
            ws == crate::entities::ast::strings_view(words@),
            4 * words@.len() <= usize::MAX,
            path_score == match_count(ws, path@),
            path_score <= words@.len(),
            views(hits@) == h0 + symbol_hits(ws, path@, fs.take(m as int)),
        decreases ast.functions@.len() - m,
    {
        let f = &ast.functions[m];
        assert(fs.take(m + 1).drop_last() == fs.take(m as int));
        assert(fs.take(m + 1).last() == (f.name@, f.start_line));
        let c = count_matches(words, &f.name);
        let score = c * 3 + path_score;
        let ghost before = views(hits@);
        if score > 0 {
            hits.push(make_hit(&path, Some(f.name.as_str()), f.start_line, score));
            assert(views(hits@) =~= before.push(views(hits@).last()));
        }
        m += 1;
    }
    assert(fs.take(ast.functions@.len() as int) == fs);
    let ghost h1 = views(hits@);
    // Classes.
    let ghost cs = ast@.classes.map_values(|c: ClassView| (c.name, c.start_line));
    let mut m: usize = 0;
    assert(cs.take(0) =~= Seq::<(Seq<char>, usize)>::empty());
    assert(h1 + symbol_hits(ws, path@, cs.take(0)) =~= h1);
    while m < ast.classes.len()
        invariant
            m <= ast.classes@.len(),
            cs == ast@.classes.map_values(|c: ClassView| (c.name, c.start_line)),
            ws == crate::entities::ast::strings_view(words@),
            4 * words@.len() <= usize::MAX,
            path_score == match_count(ws, path@),
            path_score <= words@.len(),
            views(hits@) == h1 + symbol_hits(ws, path@, cs.take(m as int)),
        decreases ast.classes@.len() - m,
    {
        let c0 = &ast.classes[m];
        assert(cs.take(m + 1).drop_last() == cs.take(m as int));
        assert(cs.take(m + 1).last() == (c0.name@, c0.start_line));
        let c = count_matches(words, &c0.name);
        let score = c * 3 + path_score;
        let ghost before = views(hits@);
        if score > 0 {
            hits.push(make_hit(&path, Some(c0.name.as_str()), c0.start_line, score));
            assert(views(hits@) =~= before.push(views(hits@).last()));
        }
        m += 1;
    }
    assert(cs.take(ast.classes@.len() as int) == cs);
    let ghost h2 = views(hits@);
    // Interfaces.
    let ghost is = ast@.interfaces.map_values(|i: InterfaceView| (i.name, i.start_line));
    let mut m: usize = 0;
    assert(is.take(0) =~= Seq::<(Seq<char>, usize)>::empty());
    assert(h2 + symbol_hits(ws, path@, is.take(0)) =~= h2);
    while m < ast.interfaces.len()
        invariant
            m <= ast.interfaces@.len(),
            is == ast@.interfaces.map_values(|i: InterfaceView| (i.name, i.start_line)),
            ws == crate::entities::ast::strings_view(words@),
            4 * words@.len() <= usize::MAX,
            path_score == match_count(ws, path@),
            path_score <= words@.len(),
            views(hits@) == h2 + symbol_hits(ws, path@, is.take(m as int)),
        decreases ast.interfaces@.len() - m,
    {
        let i0 = &ast.interfaces[m];
        assert(is.take(m + 1).drop_last() == is.take(m as int));
        assert(is.take(m + 1).last() == (i0.name@, i0.start_line));
        let c = count_matches(words, &i0.name);
        let score = c * 3 + path_score;
        let ghost before = views(hits@);
        if score > 0 {
            hits.push(make_hit(&path, Some(i0.name.as_str()), i0.start_line, score));
            assert(views(hits@) =~= before.push(views(hits@).last()));
        }
        m += 1;
    }
    assert(is.take(ast.interfaces@.len() as int) == is);
    let ghost h3 = views(hits@);
    if path_score > 0 {
        hits.push(make_hit(&path, None, 1, path_score));
        assert(views(hits@) =~= h3.push(views(hits@).last()));
    }
    assert(views(hits@) =~= h0 + file_hits(ws, ast@));
}

/// Ranks files and their symbols by overlap with `query` words. Symbol hits
/// (functions, classes, interfaces) score higher than path-only hits.
pub fn search_code(query: &str, asts: &[FileAst]) -> (r: Vec<SearchHit>)
    requires
        utf8_len(query@) <= isize::MAX,
    ensures
        views(r@) == search_spec(query@, asts_view(asts@)),
{
    let words = words_of(query);
    if words.len() == 0 {
        return Vec::new();
    }
    let ghost ws = crate::entities::ast::strings_view(words@);
    let ghost all = asts_view(asts@);
    let mut hits: Vec<SearchHit> = Vec::new();
    let mut k: usize = 0;
    assert(all.take(0) =~= Seq::<AstView>::empty());
    assert(views(hits@) =~= all_hits(ws, all.take(0)));
    while k < asts.len()
        invariant
            k <= asts@.len(),
            all == asts_view(asts@),
            ws == crate::entities::ast::strings_view(words@),
            4 * words@.len() <= usize::MAX,
            views(hits@) == all_hits(ws, all.take(k as int)),
        decreases asts@.len() - k,
    {
        push_file_hits(&words, &asts[k], &mut hits);
        assert(all.take(k + 1).drop_last() == all.take(k as int));
        assert(all.take(k + 1).last() == asts@[k as int]@);
        k += 1;
    }
    assert(all.take(asts@.len() as int) == all);
    proof {
        lemma_hit_order();
    }
    let mut sorted = sort_by_key(hits);
    let ghost s = views(sorted@);
    sorted.truncate(MAX_HITS);
    proof {
        if s.len() > MAX_HITS {
            assert(views(sorted@) =~= s.take(MAX_HITS as int));
        } else {
            assert(views(sorted@) =~= s);
        }
    }
    sorted
}

// --- Laws -------------------------------------------------------------------------

/// A word count bounds how many words match.
proof fn lemma_match_count_le(words: Seq<Seq<char>>, h: Seq<char>)
    ensures
        match_count(words, h) <= words.len(),
    decreases words.len(),
{
    if words.len() > 0 {
        lemma_match_count_le(words.drop_last(), h);
    }
}

/// Every symbol hit has a positive score.
proof fn lemma_symbol_hits_positive(words: Seq<Seq<char>>, path: Seq<char>, syms: Seq<(Seq<char>, usize)>)
    requires
        4 * words.len() <= usize::MAX,
    ensures
        forall|i: int| 0 <= i < symbol_hits(words, path, syms).len() ==> #[trigger] symbol_hits(
            words,
            path,
            syms,
        )[i].score > 0,
    decreases syms.len(),
{
    if syms.len() > 0 {
        lemma_symbol_hits_positive(words, path, syms.drop_last());
        lemma_match_count_le(words, syms.last().0);
        lemma_match_count_le(words, path);
    }
}

/// Every hit of a list of files has a positive score.
proof fn lemma_all_hits_positive(words: Seq<Seq<char>>, asts: Seq<AstView>)
    requires
        4 * words.len() <= usize::MAX,
    ensures
        forall|i: int| 0 <= i < all_hits(words, asts).len() ==> #[trigger] all_hits(words, asts)[i].score > 0,
    decreases asts.len(),
{
    if asts.len() > 0 {
        lemma_all_hits_positive(words, asts.drop_last());
        let a = asts.last();
        let path = file_id(a);
        let s1 = symbol_hits(words, path, a.functions.map_values(|f: FunctionView| (f.name, f.start_line)));
        let s2 = symbol_hits(words, path, a.classes.map_values(|c: ClassView| (c.name, c.start_line)));
        let s3 = symbol_hits(words, path, a.interfaces.map_values(|i: InterfaceView| (i.name, i.start_line)));
        lemma_symbol_hits_positive(words, path, a.functions.map_values(|f: FunctionView| (f.name, f.start_line)));
        lemma_symbol_hits_positive(words, path, a.classes.map_values(|c: ClassView| (c.name, c.start_line)));
        lemma_symbol_hits_positive(words, path, a.interfaces.map_values(|i: InterfaceView| (i.name, i.start_line)));
        lemma_match_count_le(words, path);
        let all = all_hits(words, asts);
        let prev = all_hits(words, asts.drop_last());
        let fh = file_hits(words, a);
        assert(all == prev + fh);
        assert forall|i: int| 0 <= i < all.len() implies #[trigger] all[i].score > 0 by {
            if i < prev.len() {
                assert(all[i] == prev[i]);
            } else {
                let j = i - prev.len();
                assert(all[i] == fh[j]);
                if j < s1.len() {
                    assert(fh[j] == s1[j]);
                } else if j < s1.len() + s2.len() {
                    assert(fh[j] == s2[j - s1.len()]);
                } else if j < s1.len() + s2.len() + s3.len() {
                    assert(fh[j] == s3[j - s1.len() - s2.len()]);
                }
            }
        }
    }
}

/// Hits order totally and transitively.
proof fn lemma_hit_order()
    ensures
        order_total::<HitView>(),
        order_transitive::<HitView>(),
{
    assert forall|a: HitView, b: HitView| #[trigger] a.order_le(&b) || b.order_le(&a) by {
        lemma_seq_lt_total(a.path, b.path);
    }
    assert forall|a: HitView, b: HitView, c: HitView|
        #![trigger a.order_le(&b), b.order_le(&c)]
        a.order_le(&b) && b.order_le(&c) implies a.order_le(&c) by {
        lemma_seq_lt_total(a.path, c.path);
        if a.score == b.score && b.score == c.score {
            if seq_lt(a.path, b.path) && seq_lt(b.path, c.path) {
                lemma_seq_lt_trans(a.path, b.path, c.path);
            }
        }
    }
}

/// Search returns at most `MAX_HITS` hits, best first: by descending
/// score, then by path, then by line. Every hit matches at least one query
/// word, so its score is positive; a query without a word of three or more
/// bytes finds nothing.
pub proof fn law_search_ranked(query: Seq<char>, asts: Seq<AstView>)
    requires
        utf8_len(query) <= isize::MAX,
    ensures
        search_spec(query, asts).len() <= MAX_HITS,
        is_sorted(search_spec(query, asts)),
        forall|i: int| 0 <= i < search_spec(query, asts).len() ==> #[trigger] search_spec(query, asts)[i].score > 0,
        query_words(query).len() == 0 ==> search_spec(query, asts).len() == 0,
{
    let words = query_words(query);
    if words.len() > 0 {
        lemma_long_words_bytes(split(query, Separator::NonAlphanumeric));
        lemma_split_bytes(query, Separator::NonAlphanumeric);
        lemma_all_hits_positive(words, asts);
        let all = all_hits(words, asts);
        let s = sort_seq(all);
        lemma_hit_order();
        lemma_sort_sorted(all);
        lemma_sort_contains(all);
        lemma_sort_multiset(all);
        let r = search_spec(query, asts);
        if s.len() > MAX_HITS {
            lemma_sorted_take(s, MAX_HITS as int);
        }
        assert forall|i: int| 0 <= i < r.len() implies #[trigger] r[i].score > 0 by {
            assert(r[i] == s[i]);
            assert(all.contains(s[i]));
        }
    }
}

/// A word that matches makes the count positive.
proof fn lemma_match_count_positive(words: Seq<Seq<char>>, hay: Seq<char>, w: int)
    requires
        0 <= w < words.len(),
        word_matches_spec(words[w], hay),
    ensures
        match_count(words, hay) > 0,
    decreases words.len(),
{
    if w < words.len() - 1 {
        lemma_match_count_positive(words.drop_last(), hay, w);
    }
}

/// The path hit of every file whose path matches is among the hits.
proof fn lemma_path_hit_listed(words: Seq<Seq<char>>, asts: Seq<AstView>, i: int)
    requires
        0 <= i < asts.len(),
        match_count(words, file_id(asts[i])) > 0,
    ensures
        all_hits(words, asts).contains(
            HitView {
                path: file_id(asts[i]),
                symbol: None,
                line: 1,
                score: match_count(words, file_id(asts[i])) as usize,
            },
        ),
    decreases asts.len(),
{
    let h = HitView {
        path: file_id(asts[i]),
        symbol: None,
        line: 1,
        score: match_count(words, file_id(asts[i])) as usize,
    };
    let prev = all_hits(words, asts.drop_last());
    let fh = file_hits(words, asts.last());
    assert(all_hits(words, asts) == prev + fh);
    if i < asts.len() - 1 {
        assert(asts.drop_last()[i] == asts[i]);
        lemma_path_hit_listed(words, asts.drop_last(), i);
        let k = choose|k: int| 0 <= k < prev.len() && prev[k] == h;
        assert((prev + fh)[k] == prev[k]);
    } else {
        assert(fh.last() == h);
        assert((prev + fh)[prev.len() + fh.len() - 1] == fh.last());
    }
}

/// Every parsed file whose path matches a query word is found: the
/// results hold the hit of the file itself (no symbol, line 1, scored by
/// the number of query words its path matches), unless the results are
/// full with `MAX_HITS` hits that each rank no lower than it.
pub proof fn law_search_finds_matching_paths(query: Seq<char>, asts: Seq<AstView>)
    ensures
        forall|i: int, w: int|
            0 <= i < asts.len() && 0 <= w < query_words(query).len() && #[trigger] word_matches_spec(
                query_words(query)[w],
                file_id(asts[i]),
            ) ==> ({
                let h = HitView {
                    path: file_id(asts[i]),
                    symbol: None,
                    line: 1,
                    score: match_count(query_words(query), file_id(asts[i])) as usize,
                };
                ||| search_spec(query, asts).contains(h)
                ||| search_spec(query, asts).len() == MAX_HITS && forall|k: int|
                    0 <= k < MAX_HITS ==> (#[trigger] search_spec(query, asts)[k]).order_le(&h)
            }),
{
    let words = query_words(query);
    assert forall|i: int, w: int|
        0 <= i < asts.len() && 0 <= w < words.len() && #[trigger] word_matches_spec(
            words[w],
            file_id(asts[i]),
        ) implies ({
        let h = HitView {
            path: file_id(asts[i]),
            symbol: None,
            line: 1,
            score: match_count(words, file_id(asts[i])) as usize,
        };
        ||| search_spec(query, asts).contains(h)
        ||| search_spec(query, asts).len() == MAX_HITS && forall|k: int|
            0 <= k < MAX_HITS ==> (#[trigger] search_spec(query, asts)[k]).order_le(&h)
    }) by {
        let h = HitView {
            path: file_id(asts[i]),
            symbol: None,
            line: 1,
            score: match_count(words, file_id(asts[i])) as usize,
        };
        lemma_match_count_positive(words, file_id(asts[i]), w);
        lemma_path_hit_listed(words, asts, i);
        let all = all_hits(words, asts);
        let s = sort_seq(all);
        lemma_hit_order();
        lemma_sort_sorted(all);
        lemma_sort_contains(all);
        let m = choose|m: int| 0 <= m < all.len() && all[m] == h;
        assert(s.contains(all[m]));
        let p = choose|p: int| 0 <= p < s.len() && s[p] == h;
        let r = search_spec(query, asts);
        if s.len() <= MAX_HITS {
            assert(r == s);
        } else {
            assert(r == s.take(MAX_HITS as int));
            if p < MAX_HITS {
                assert(r[p] == s[p]);
            } else {
                assert forall|k: int| 0 <= k < MAX_HITS implies (#[trigger] r[k]).order_le(&h) by {
                    assert(r[k] == s[k]);
                    assert(s[k].order_le(&s[p]));
                }
            }
        }
    }
}

} // verus!
