//! Character-level text primitives with exact specifications.
//!
//! Strings are modelled by their view, a `Seq<char>`; every helper here
//! states its result over that view. Splitting follows `str::split`: `n`
//! separators give `n + 1` pieces, empty pieces included.
use vstd::prelude::*;

verus! {

// --- Unicode character classes -----------------------------------------

/// Whether `c` is alphabetic or numeric in the Unicode sense
/// (`char::is_alphanumeric`).
pub uninterp spec fn alphanumeric(c: char) -> bool;

/// Whether `c` has the Unicode `White_Space` property (`char::is_whitespace`):
/// tab through carriage return, space, next line, no-break space, ogham
/// space mark, en quad through hair space, the line and paragraph
/// separators, narrow no-break space, medium mathematical space and
/// ideographic space.
pub open spec fn whitespace(c: char) -> bool {
    let n = c as u32;
    ||| 0x09 <= n <= 0x0D
    ||| n == 0x20
    ||| n == 0x85
    ||| n == 0xA0
    ||| n == 0x1680
    ||| 0x2000 <= n <= 0x200A
    ||| n == 0x2028
    ||| n == 0x2029
    ||| n == 0x202F
    ||| n == 0x205F
    ||| n == 0x3000
}

/// Unicode lowercase mapping of a whole string (`str::to_lowercase`).
pub uninterp spec fn lowercase(s: Seq<char>) -> Seq<char>;

/// Calls `char::is_alphanumeric`; the result is named `alphanumeric`.
#[verifier::external_body]
pub fn is_alphanumeric(c: char) -> (b: bool)
    ensures
        b == alphanumeric(c),
{
    c.is_alphanumeric()
}

/// Whether `c` is white space (`char::is_whitespace`).
pub fn is_whitespace(c: char) -> (b: bool)
    ensures
        b == whitespace(c),
{
    let n = c as u32;
    (0x09 <= n && n <= 0x0D) || n == 0x20 || n == 0x85 || n == 0xA0 || n == 0x1680 || (0x2000 <= n
        && n <= 0x200A) || n == 0x2028 || n == 0x2029 || n == 0x202F || n == 0x205F || n == 0x3000
}

/// Calls `str::to_lowercase`; the result is named `lowercase`.
#[verifier::external_body]
pub fn to_lowercase(s: &str) -> (r: String)
    ensures
        r@ == lowercase(s@),
{
    s.to_lowercase()
}

/// Appends one character to a string (`String::push`).
#[verifier::external_body]
fn push_char(s: &mut String, c: char)
    ensures
        final(s)@ == old(s)@.push(c),
{
    s.push(c);
}

// --- Conversions --------------------------------------------------------

/// The characters of `s`, in order.
pub fn chars_of(s: &str) -> (v: Vec<char>)
    ensures
        v@ == s@,
{
    let mut v: Vec<char> = Vec::new();
    for c in it: s.chars()
        invariant
            it.seq() == s@,
            v@ == it.seq().take(it.index() as int),
    {
        v.push(c);
    }
    v
}

/// A string holding exactly the characters `cs`.
pub fn string_of(cs: &[char]) -> (s: String)
    ensures
        s@ == cs@,
{
    let mut s = String::new();
    let mut i: usize = 0;
    while i < cs.len()
        invariant
            i <= cs@.len(),
            s@ == cs@.take(i as int),
        decreases cs@.len() - i,
    {
        push_char(&mut s, cs[i]);
        i += 1;
        assert(cs@.take(i as int) == cs@.take((i - 1) as int).push(cs@[i - 1]));
    }
    assert(cs@.take(cs@.len() as int) == cs@);
    s
}

/// The concatenation of `a` and `b` as a new string.
pub fn concat(a: &str, b: &str) -> (s: String)
    ensures
        s@ == a@ + b@,
{
    let mut s = a.to_owned();
    s.append(b);
    s
}

/// Whether two strings hold the same characters.
pub fn str_eq(a: &str, b: &str) -> (r: bool)
    ensures
        r == (a@ == b@),
{
    let x = chars_of(a);
    let y = chars_of(b);
    chars_eq(&x, &y)
}

/// Whether two character slices are equal.
pub fn chars_eq(a: &[char], b: &[char]) -> (r: bool)
    ensures
        r == (a@ == b@),
{
    if a.len() != b.len() {
        return false;
    }
    let mut i: usize = 0;
    while i < a.len()
        invariant
            a@.len() == b@.len(),
            i <= a@.len(),
            forall|j: int| 0 <= j < i ==> a@[j] == b@[j],
        decreases a@.len() - i,
    {
        if a[i] != b[i] {
            return false;
        }
        i += 1;
    }
    assert(a@ =~= b@);
    true
}

// --- UTF-8 length -------------------------------------------------------

/// Number of bytes `c` takes in UTF-8.
pub open spec fn utf8_width(c: char) -> nat {
    if (c as u32) < 0x80 {
        1
    } else if (c as u32) < 0x800 {
        2
    } else if (c as u32) < 0x10000 {
        3
    } else {
        4
    }
}

/// Number of bytes `s` takes in UTF-8 (what `str::len` returns).
pub open spec fn utf8_len(s: Seq<char>) -> nat
    decreases s.len(),
{
    if s.len() == 0 {
        0
    } else {
        utf8_len(s.drop_last()) + utf8_width(s.last())
    }
}

/// `utf8_len` is at least the number of characters.
pub proof fn lemma_utf8_len_bounds(s: Seq<char>)
    ensures
        s.len() <= utf8_len(s) <= 4 * s.len(),
    decreases s.len(),
{
    if s.len() > 0 {
        lemma_utf8_len_bounds(s.drop_last());
    }
}

/// Byte length of a character sequence in UTF-8, saturating at `usize::MAX`.
pub fn utf8_length(cs: &[char]) -> (n: usize)
    ensures
        n == if utf8_len(cs@) <= usize::MAX { utf8_len(cs@) } else { usize::MAX as nat },
{
    let mut n: usize = 0;
    let mut i: usize = 0;
    while i < cs.len()
        invariant
            i <= cs@.len(),
            n == if utf8_len(cs@.take(i as int)) <= usize::MAX {
                utf8_len(cs@.take(i as int))
            } else {
                usize::MAX as nat
            },
        decreases cs@.len() - i,
    {
        let c = cs[i];
        let w: usize = if (c as u32) < 0x80 {
            1
        } else if (c as u32) < 0x800 {
            2
        } else if (c as u32) < 0x10000 {
            3
        } else {
            4
        };
        assert(cs@.take(i + 1).drop_last() == cs@.take(i as int));
        n = n.saturating_add(w);
        i += 1;
    }
    assert(cs@.take(cs@.len() as int) == cs@);
    n
}

// --- Separators and splitting ------------------------------------------

/// The separators the library splits text on.
#[derive(Clone, Copy, PartialEq, Eq, Debug)]
pub enum Separator {
    /// Any character that is not alphanumeric.
    NonAlphanumeric,
    /// Any whitespace character.
    Whitespace,
    /// `/` or `:`.
    SlashOrColon,
    /// Exactly the given character.
    Char(char),
}

/// Whether `c` is a separator of kind `sep`.
pub open spec fn is_sep(sep: Separator, c: char) -> bool {
    match sep {
        Separator::NonAlphanumeric => !alphanumeric(c),
        Separator::Whitespace => whitespace(c),
        Separator::SlashOrColon => c == '/' || c == ':',
        Separator::Char(d) => c == d,
    }
}

/// Executable test of `is_sep`.
pub fn sep_matches(sep: Separator, c: char) -> (b: bool)
    ensures
        b == is_sep(sep, c),
{
    match sep {
        Separator::NonAlphanumeric => !is_alphanumeric(c),
        Separator::Whitespace => is_whitespace(c),
        Separator::SlashOrColon => c == '/' || c == ':',
        Separator::Char(d) => c == d,
    }
}

/// The pieces of `s` between separators, as `str::split` yields them.
pub open spec fn split(s: Seq<char>, sep: Separator) -> Seq<Seq<char>>
    decreases s.len(),
{
    if s.len() == 0 {
        seq![Seq::<char>::empty()]
    } else {
        let p = split(s.drop_last(), sep);
        if is_sep(sep, s.last()) {
            p.push(Seq::<char>::empty())
        } else {
            p.update(p.len() - 1, p.last().push(s.last()))
        }
    }
}

/// `split` always yields at least one piece.
pub proof fn lemma_split_nonempty(s: Seq<char>, sep: Separator)
    ensures
        split(s, sep).len() >= 1,
    decreases s.len(),
{
    if s.len() > 0 {
        lemma_split_nonempty(s.drop_last(), sep);
    }
}

/// The last piece of a split holds no separator.
pub proof fn lemma_split_last_free(s: Seq<char>, sep: Separator)
    ensures
        split(s, sep).len() >= 1,
        forall|i: int| 0 <= i < split(s, sep).last().len() ==> !is_sep(sep, #[trigger] split(s, sep).last()[i]),
    decreases s.len(),
{
    lemma_split_nonempty(s, sep);
    if s.len() > 0 {
        lemma_split_last_free(s.drop_last(), sep);
        let p = split(s.drop_last(), sep);
        if !is_sep(sep, s.last()) {
            let l = p.last().push(s.last());
            assert(split(s, sep).last() == l);
            assert forall|i: int| 0 <= i < l.len() implies !is_sep(sep, #[trigger] l[i]) by {
                if i < p.last().len() {
                    assert(l[i] == p.last()[i]);
                }
            }
        }
    }
}

/// A text without separators is one piece.
pub proof fn lemma_split_free(s: Seq<char>, sep: Separator)
    requires
        forall|i: int| 0 <= i < s.len() ==> !is_sep(sep, #[trigger] s[i]),
    ensures
        split(s, sep) == seq![s],
    decreases s.len(),
{
    if s.len() == 0 {
        assert(s =~= Seq::<char>::empty());
    } else {
        let d = s.drop_last();
        assert forall|i: int| 0 <= i < d.len() implies !is_sep(sep, #[trigger] d[i]) by {
            assert(d[i] == s[i]);
        }
        lemma_split_free(d, sep);
        assert(!is_sep(sep, s[s.len() - 1]));
        assert(d.push(s.last()) =~= s);
        assert(seq![d].update(0, d.push(s.last())) =~= seq![s]);
    }
}

/// Splitting `a + b` splits `a` up to its last piece, then that piece
/// followed by `b`.
pub proof fn lemma_split_append(a: Seq<char>, b: Seq<char>, sep: Separator)
    ensures
        split(a + b, sep) == split(a, sep).drop_last() + split(split(a, sep).last() + b, sep),
    decreases b.len(),
{
    lemma_split_last_free(a, sep);
    let d = split(a, sep).drop_last();
    let l = split(a, sep).last();
    if b.len() == 0 {
        assert(a + b =~= a);
        assert(l + b =~= l);
        lemma_split_free(l, sep);
        assert(split(a, sep) =~= d + seq![l]);
    } else {
        let b2 = b.drop_last();
        lemma_split_append(a, b2, sep);
        assert((a + b).drop_last() =~= a + b2);
        assert((a + b).last() == b.last());
        assert((l + b).drop_last() =~= l + b2);
        assert((l + b).last() == b.last());
        let p = split(l + b2, sep);
        lemma_split_nonempty(l + b2, sep);
        if is_sep(sep, b.last()) {
            assert((d + p).push(Seq::<char>::empty()) =~= d + p.push(Seq::<char>::empty()));
        } else {
            assert((d + p).update((d + p).len() - 1, (d + p).last().push(b.last())) =~= d + p.update(
                p.len() - 1,
                p.last().push(b.last()),
            ));
        }
    }
}

/// The pieces of a vector of character vectors, as sequences.
pub open spec fn pieces_view(v: Seq<Vec<char>>) -> Seq<Seq<char>> {
    v.map_values(|p: Vec<char>| p@)
}

/// Splits `cs` on `sep` (`str::split`).
pub fn split_chars(cs: &[char], sep: Separator) -> (r: Vec<Vec<char>>)
    ensures
        pieces_view(r@) == split(cs@, sep),
{
    let mut r: Vec<Vec<char>> = Vec::new();
    r.push(Vec::new());
    let mut i: usize = 0;
    assert(cs@.take(0) =~= Seq::<char>::empty());
    assert(pieces_view(r@) =~= split(cs@.take(0), sep));
    while i < cs.len()
        invariant
            i <= cs@.len(),
            r@.len() >= 1,
            pieces_view(r@) == split(cs@.take(i as int), sep),
        decreases cs@.len() - i,
    {
        let c = cs[i];
        assert(cs@.take(i + 1).drop_last() == cs@.take(i as int));
        assert(cs@.take(i + 1).last() == c);
        if sep_matches(sep, c) {
            r.push(Vec::new());
            assert(pieces_view(r@) =~= split(cs@.take(i + 1), sep));
        } else {
            let mut last = r.pop().unwrap();
            last.push(c);
            r.push(last);
            assert(pieces_view(r@) =~= split(cs@.take(i + 1), sep));
        }
        i += 1;
    }
    assert(cs@.take(cs@.len() as int) == cs@);
    r
}

/// Drops the empty pieces of `ps`, keeping the order of the others.
pub open spec fn non_empty(ps: Seq<Seq<char>>) -> Seq<Seq<char>>
    decreases ps.len(),
{
    if ps.len() == 0 {
        ps
    } else if ps.last().len() == 0 {
        non_empty(ps.drop_last())
    } else {
        non_empty(ps.drop_last()).push(ps.last())
    }
}

/// Removes the empty pieces of `ps`.
pub fn drop_empty(ps: Vec<Vec<char>>) -> (r: Vec<Vec<char>>)
    ensures
        pieces_view(r@) == non_empty(pieces_view(ps@)),
{
    let mut r: Vec<Vec<char>> = Vec::new();
    let mut ps = ps;
    let ghost orig = pieces_view(ps@);
    let mut i: usize = 0;
    let n = ps.len();
    let mut rest: Vec<Vec<char>> = Vec::new();
    // Reverse `ps` into `rest` so pieces can be moved out from the back in order.
    while ps.len() > 0
        invariant
            ps@.len() + rest@.len() == n,
            n == orig.len(),
            forall|j: int| 0 <= j < ps@.len() ==> ps@[j]@ == orig[j],
            forall|j: int| 0 <= j < rest@.len() ==> rest@[j]@ == orig[n - 1 - j],
        decreases ps@.len(),
    {
        let p = ps.pop().unwrap();
        rest.push(p);
    }
    assert(pieces_view(r@) =~= non_empty(orig.take(0)));
    while rest.len() > 0
        invariant
            i + rest@.len() == n,
            n == orig.len(),
            forall|j: int| 0 <= j < rest@.len() ==> rest@[j]@ == orig[n - 1 - j],
            pieces_view(r@) == non_empty(orig.take(i as int)),
        decreases rest@.len(),
    {
        let p = rest.pop().unwrap();
        assert(p@ == orig[i as int]);
        assert(orig.take(i + 1).drop_last() == orig.take(i as int));
        if p.len() > 0 {
            r.push(p);
        }
        assert(pieces_view(r@) =~= non_empty(orig.take(i + 1)));
        i += 1;
    }
    assert(orig.take(n as int) == orig);
    r
}

// --- Searching ----------------------------------------------------------

/// Index of the last separator of kind `sep` in `s`, if any.
pub open spec fn last_sep(s: Seq<char>, sep: Separator) -> Option<int>
    decreases s.len(),
{
    if s.len() == 0 {
        None
    } else if is_sep(sep, s.last()) {
        Some(s.len() - 1)
    } else {
        last_sep(s.drop_last(), sep)
    }
}

/// `last_sep` finds the last separator, and it is in range.
pub proof fn lemma_last_sep(s: Seq<char>, sep: Separator)
    ensures
        last_sep(s, sep) matches Some(i) ==> 0 <= i < s.len() && is_sep(sep, s[i]) && forall|j: int|
            i < j < s.len() ==> !is_sep(sep, s[j]),
        last_sep(s, sep) is None ==> forall|j: int| 0 <= j < s.len() ==> !is_sep(sep, s[j]),
    decreases s.len(),
{
    if s.len() > 0 && !is_sep(sep, s.last()) {
        let d = s.drop_last();
        lemma_last_sep(d, sep);
        assert forall|j: int| 0 <= j < d.len() implies d[j] == s[j] by {}
    }
}

/// Finds the last separator of kind `sep` in `cs` (`str::rfind`).
pub fn rfind_sep(cs: &[char], sep: Separator) -> (r: Option<usize>)
    ensures
        r matches Some(i) ==> last_sep(cs@, sep) == Some(i as int),
        r is None ==> last_sep(cs@, sep) is None,
{
    let mut i: usize = cs.len();
    proof {
        lemma_last_sep(cs@, sep);
    }
    while i > 0
        invariant
            i <= cs@.len(),
            forall|j: int| i <= j < cs@.len() ==> !is_sep(sep, cs@[j]),
            last_sep(cs@, sep) matches Some(k) ==> 0 <= k < cs@.len() && is_sep(sep, cs@[k])
                && forall|j: int| k < j < cs@.len() ==> !is_sep(sep, cs@[j]),
            last_sep(cs@, sep) is None ==> forall|j: int|
                0 <= j < cs@.len() ==> !is_sep(sep, cs@[j]),
        decreases i,
    {
        if sep_matches(sep, cs[i - 1]) {
            return Some(i - 1);
        }
        i -= 1;
    }
    None
}

/// Whether `p` is a prefix of `s`.
pub open spec fn has_prefix(s: Seq<char>, p: Seq<char>) -> bool {
    p.len() <= s.len() && s.take(p.len() as int) == p
}

/// Whether `n` occurs in `h` as a contiguous run.
pub open spec fn contains_sub(h: Seq<char>, n: Seq<char>) -> bool {
    exists|i: int| 0 <= i && i + n.len() <= h.len() && #[trigger] h.subrange(i, i + n.len()) == n
}

/// Whether `s` starts with `p` (`str::starts_with`).
pub fn starts_with(s: &[char], p: &[char]) -> (r: bool)
    ensures
        r == has_prefix(s@, p@),
{
    if p.len() > s.len() {
        return false;
    }
    let mut i: usize = 0;
    while i < p.len()
        invariant
            p@.len() <= s@.len(),
            i <= p@.len(),
            forall|j: int| 0 <= j < i ==> s@[j] == p@[j],
        decreases p@.len() - i,
    {
        if s[i] != p[i] {
            assert(s@.take(p@.len() as int)[i as int] != p@[i as int]);
            return false;
        }
        i += 1;
    }
    assert(s@.take(p@.len() as int) =~= p@);
    true
}

/// Whether `n` matches `h` at position `at`.
fn matches_at(h: &[char], n: &[char], at: usize) -> (r: bool)
    requires
        at + n@.len() <= h@.len(),
    ensures
        r == (h@.subrange(at as int, at + n@.len()) == n@),
{
    let mut i: usize = 0;
    let hl = h.len();
    while i < n.len()
        invariant
            hl == h@.len(),
            at + n@.len() <= h@.len(),
            i <= n@.len(),
            forall|j: int| 0 <= j < i ==> h@[at + j] == n@[j],
        decreases n@.len() - i,
    {
        if h[at + i] != n[i] {
            assert(h@.subrange(at as int, at + n@.len())[i as int] != n@[i as int]);
            return false;
        }
        i += 1;
    }
    assert(h@.subrange(at as int, at + n@.len()) =~= n@);
    true
}

/// Whether `n` occurs in `h` (`str::contains`).
pub fn contains(h: &[char], n: &[char]) -> (r: bool)
    ensures
        r == contains_sub(h@, n@),
{
    if n.len() > h.len() {
        return false;
    }
    let mut at: usize = 0;
    let last = h.len() - n.len();
    loop
        invariant
            n@.len() <= h@.len(),
            last == h@.len() - n@.len(),
            at <= last,
            forall|i: int|
                0 <= i < at ==> #[trigger] h@.subrange(i, i + n@.len()) != n@,
        decreases last - at,
    {
        if matches_at(h, n, at) {
            assert(h@.subrange(at as int, at + n@.len()) == n@);
            return true;
        }
        if at == last {
            return false;
        }
        at += 1;
    }
}

// --- Trimming -----------------------------------------------------------

/// `s` without leading whitespace.
pub open spec fn trim_start(s: Seq<char>) -> Seq<char>
    decreases s.len(),
{
    if s.len() > 0 && whitespace(s[0]) {
        trim_start(s.drop_first())
    } else {
        s
    }
}

/// `s` without trailing whitespace.
pub open spec fn trim_end(s: Seq<char>) -> Seq<char>
    decreases s.len(),
{
    if s.len() > 0 && whitespace(s.last()) {
        trim_end(s.drop_last())
    } else {
        s
    }
}

/// `s` without leading and trailing whitespace (`str::trim`).
pub open spec fn trim(s: Seq<char>) -> Seq<char> {
    trim_end(trim_start(s))
}

/// Removes leading whitespace.
pub fn trim_start_chars(cs: &[char]) -> (r: Vec<char>)
    ensures
        r@ == trim_start(cs@),
{
    let mut k: usize = 0;
    assert(cs@.skip(0) == cs@);
    while k < cs.len() && is_whitespace(cs[k])
        invariant
            k <= cs@.len(),
            trim_start(cs@.skip(k as int)) == trim_start(cs@),
        decreases cs@.len() - k,
    {
        assert(cs@.skip(k as int).drop_first() == cs@.skip(k + 1));
        k += 1;
    }
    let r = slice_to_vec(cs, k, cs.len());
    assert(r@ == cs@.skip(k as int));
    r
}

/// Removes trailing whitespace.
pub fn trim_end_chars(cs: &[char]) -> (r: Vec<char>)
    ensures
        r@ == trim_end(cs@),
{
    let mut k: usize = cs.len();
    assert(cs@.take(cs@.len() as int) == cs@);
    while k > 0 && is_whitespace(cs[k - 1])
        invariant
            k <= cs@.len(),
            trim_end(cs@.take(k as int)) == trim_end(cs@),
        decreases k,
    {
        assert(cs@.take(k as int).drop_last() == cs@.take(k - 1));
        k -= 1;
    }
    let r = slice_to_vec(cs, 0, k);
    assert(cs@.take(cs@.len() as int) == cs@);
    r
}

/// Removes leading and trailing whitespace (`str::trim`).
pub fn trim_chars(cs: &[char]) -> (r: Vec<char>)
    ensures
        r@ == trim(cs@),
{
    let a = trim_start_chars(cs);
    trim_end_chars(&a)
}

/// The characters `cs[from..to]` as a new vector.
pub fn slice_to_vec(cs: &[char], from: usize, to: usize) -> (r: Vec<char>)
    requires
        from <= to <= cs@.len(),
    ensures
        r@ == cs@.subrange(from as int, to as int),
{
    let mut r: Vec<char> = Vec::new();
    let mut i = from;
    while i < to
        invariant
            from <= i <= to,
            to <= cs@.len(),
            r@ == cs@.subrange(from as int, i as int),
        decreases to - i,
    {
        r.push(cs[i]);
        i += 1;
        assert(r@ =~= cs@.subrange(from as int, i as int));
    }
    r
}

// --- Case ---------------------------------------------------------------

/// ASCII lowercase of one character.
pub open spec fn ascii_lower(c: char) -> char {
    if 'A' <= c <= 'Z' {
        ((c as u32) + 32) as char
    } else {
        c
    }
}

/// ASCII lowercase of a string (`str::to_ascii_lowercase`).
pub open spec fn ascii_lowercase(s: Seq<char>) -> Seq<char> {
    s.map_values(|c: char| ascii_lower(c))
}

/// Lowercases one character in the ASCII range.
pub fn ascii_lower_char(c: char) -> (r: char)
    ensures
        r == ascii_lower(c),
{
    if 'A' <= c && c <= 'Z' {
        let b = c as u8;
        let l = b + 32;
        assert(l as char == ((c as u32) + 32) as char);
        l as char
    } else {
        c
    }
}

/// ASCII lowercase of `cs`.
pub fn ascii_lowercase_chars(cs: &[char]) -> (r: Vec<char>)
    ensures
        r@ == ascii_lowercase(cs@),
{
    let mut r: Vec<char> = Vec::new();
    let mut i: usize = 0;
    while i < cs.len()
        invariant
            i <= cs@.len(),
            r@ == ascii_lowercase(cs@.take(i as int)),
        decreases cs@.len() - i,
    {
        r.push(ascii_lower_char(cs[i]));
        i += 1;
        assert(r@ =~= ascii_lowercase(cs@.take(i as int)));
    }
    assert(cs@.take(cs@.len() as int) == cs@);
    r
}

// --- Joining ------------------------------------------------------------

/// The pieces `ps` joined with `sep` between neighbours (`[_]::join`).
pub open spec fn join(ps: Seq<Seq<char>>, sep: Seq<char>) -> Seq<char>
    decreases ps.len(),
{
    if ps.len() == 0 {
        Seq::empty()
    } else if ps.len() == 1 {
        ps[0]
    } else {
        join(ps.drop_last(), sep) + sep + ps.last()
    }
}

/// Joins `ps` with `sep`.
pub fn join_chars(ps: &Vec<Vec<char>>, sep: &[char]) -> (r: Vec<char>)
    ensures
        r@ == join(pieces_view(ps@), sep@),
{
    let mut r: Vec<char> = Vec::new();
    let mut i: usize = 0;
    while i < ps.len()
        invariant
            i <= ps@.len(),
            r@ == join(pieces_view(ps@).take(i as int), sep@),
        decreases ps@.len() - i,
    {
        assert(pieces_view(ps@).take(i + 1).drop_last() =~= pieces_view(ps@).take(i as int));
        if i > 0 {
            append_chars(&mut r, sep);
        }
        append_chars(&mut r, &ps[i]);
        i += 1;
        assert(r@ =~= join(pieces_view(ps@).take(i as int), sep@));
    }
    assert(pieces_view(ps@).take(ps@.len() as int) =~= pieces_view(ps@));
    r
}

/// Appends `b` to `a`.
pub fn append_chars(a: &mut Vec<char>, b: &[char])
    ensures
        final(a)@ == old(a)@ + b@,
{
    let mut i: usize = 0;
    while i < b.len()
        invariant
            i <= b@.len(),
            a@ == old(a)@ + b@.take(i as int),
        decreases b@.len() - i,
    {
        a.push(b[i]);
        i += 1;
        assert(a@ =~= old(a)@ + b@.take(i as int));
    }
    assert(b@.take(b@.len() as int) == b@);
}

// --- Lines --------------------------------------------------------------

/// `p` without one trailing carriage return.
pub open spec fn strip_cr(p: Seq<char>) -> Seq<char> {
    if p.len() > 0 && p.last() == '\r' {
        p.drop_last()
    } else {
        p
    }
}

/// The lines of `s`, as `str::lines` yields them: split at `\n`, a `\r`
/// right before a `\n` removed, and no empty line after a final `\n`.
pub open spec fn lines(s: Seq<char>) -> Seq<Seq<char>> {
    let p = split(s, Separator::Char('\n'));
    let n = if s.len() == 0 || s.last() == '\n' {
        p.len() - 1
    } else {
        p.len() as int
    };
    Seq::new(n as nat, |i: int| if i < p.len() - 1 { strip_cr(p[i]) } else { p[i] })
}

/// Splits `cs` into lines (`str::lines`).
pub fn lines_of(cs: &[char]) -> (r: Vec<Vec<char>>)
    ensures
        pieces_view(r@) == lines(cs@),
{
    let p = split_chars(cs, Separator::Char('\n'));
    proof {
        lemma_split_nonempty(cs@, Separator::Char('\n'));
    }
    let n: usize = if cs.len() == 0 || cs[cs.len() - 1] == '\n' {
        p.len() - 1
    } else {
        p.len()
    };
    let mut r: Vec<Vec<char>> = Vec::new();
    let mut i: usize = 0;
    while i < n
        invariant
            n <= p@.len(),
            p@.len() >= 1,
            i <= n,
            pieces_view(p@) == split(cs@, Separator::Char('\n')),
            forall|j: int|
                0 <= j < i ==> r@[j]@ == (if j < p@.len() - 1 {
                    strip_cr(p@[j]@)
                } else {
                    p@[j]@
                }),
            r@.len() == i,
        decreases n - i,
    {
        let piece = &p[i];
        let mut k = piece.len();
        if i + 1 < p.len() && k > 0 && piece[k - 1] == '\r' {
            k -= 1;
        }
        let line = slice_to_vec(piece, 0, k);
        assert(piece@.take(piece@.len() as int) == piece@);
        assert(line@ == (if i < p@.len() - 1 {
            strip_cr(p@[i as int]@)
        } else {
            p@[i as int]@
        }));
        r.push(line);
        i += 1;
    }
    assert(pieces_view(r@) =~= lines(cs@));
    r
}

// --- Numbers ------------------------------------------------------------

/// The decimal digit character for `d < 10`.
pub open spec fn digit_char(d: nat) -> char {
    if d == 0 { '0' } else if d == 1 { '1' } else if d == 2 { '2' } else if d == 3 { '3' }
    else if d == 4 { '4' } else if d == 5 { '5' } else if d == 6 { '6' } else if d == 7 { '7' }
    else if d == 8 { '8' } else { '9' }
}

/// The decimal representation of `n`, without leading zeros.
pub open spec fn decimal(n: nat) -> Seq<char>
    decreases n,
{
    if n < 10 {
        seq![digit_char(n)]
    } else {
        decimal(n / 10).push(digit_char(n % 10))
    }
}

/// The digit character of `d < 10`.
fn digit_of(d: u64) -> (c: char)
    requires
        d < 10,
    ensures
        c == digit_char(d as nat),
{
    if d == 0 { '0' } else if d == 1 { '1' } else if d == 2 { '2' } else if d == 3 { '3' }
    else if d == 4 { '4' } else if d == 5 { '5' } else if d == 6 { '6' } else if d == 7 { '7' }
    else if d == 8 { '8' } else { '9' }
}

/// Formats `n` in decimal (what `Display` shows for an unsigned integer).
pub fn decimal_string(n: u64) -> (r: String)
    ensures
        r@ == decimal(n as nat),
{
    let mut digits: Vec<char> = Vec::new();
    let mut m: u64 = n;
    // Digits are collected least significant first.
    while m >= 10
        invariant
            m as nat <= n as nat,
            decimal(n as nat) == decimal(m as nat) + digits@.reverse(),
        decreases m,
    {
        let d = m % 10;
        let c = digit_of(d);
        proof {
            assert(decimal(m as nat) == decimal((m / 10) as nat).push(c));
            assert(digits@.push(c).reverse() =~= seq![c] + digits@.reverse());
            assert(decimal((m / 10) as nat).push(c) + digits@.reverse() =~= decimal(
                (m / 10) as nat,
            ) + (seq![c] + digits@.reverse()));
        }
        digits.push(c);
        m = m / 10;
    }
    let c = digit_of(m);
    digits.push(c);
    assert(digits@.reverse() =~= seq![c] + digits@.drop_last().reverse());
    let mut out: Vec<char> = Vec::new();
    let mut i: usize = digits.len();
    while i > 0
        invariant
            i <= digits@.len(),
            out@ == digits@.reverse().take(digits@.len() - i),
        decreases i,
    {
        out.push(digits[i - 1]);
        i -= 1;
        assert(out@ =~= digits@.reverse().take(digits@.len() - i));
    }
    assert(digits@.reverse().take(digits@.len() as int) == digits@.reverse());
    string_of(&out)
}

// --- Literals and substrings ---------------------------------------------

/// Whether `cs` is exactly the characters of `lit`.
pub fn eq_lit(cs: &[char], lit: &str) -> (r: bool)
    ensures
        r == (cs@ == lit@),
{
    let w = chars_of(lit);
    chars_eq(cs, &w)
}

/// Position of the first occurrence of `n` in `h` at or after `i`.
pub open spec fn find_sub_from(h: Seq<char>, n: Seq<char>, i: int) -> Option<int>
    decreases h.len() + 1 - i,
{
    if i < 0 || i + n.len() > h.len() {
        None
    } else if h.subrange(i, i + n.len()) == n {
        Some(i)
    } else {
        find_sub_from(h, n, i + 1)
    }
}

/// Position of the first occurrence of `n` in `h` (`str::find`).
pub open spec fn find_sub(h: Seq<char>, n: Seq<char>) -> Option<int> {
    find_sub_from(h, n, 0)
}

/// The part of `h` before the first occurrence of `n`, or all of `h`
/// (the first piece of `str::split`).
pub open spec fn before_sub(h: Seq<char>, n: Seq<char>) -> Seq<char> {
    match find_sub(h, n) {
        Some(i) => h.take(i),
        None => h,
    }
}

/// The part of `h` before the first occurrence of the non-empty `n`.
pub fn before_sub_chars(h: &[char], n: &[char]) -> (r: Vec<char>)
    requires
        n@.len() > 0,
    ensures
        r@ == before_sub(h@, n@),
{
    let mut i: usize = 0;
    while i <= h.len() && n.len() <= h.len() - i
        invariant
            i <= h@.len(),
            n@.len() > 0,
            find_sub(h@, n@) == find_sub_from(h@, n@, i as int),
        decreases h@.len() - i,
    {
        if matches_at(h, n, i) {
            return slice_to_vec(h, 0, i);
        }
        i += 1;
    }
    slice_to_vec(h, 0, h.len())
}

/// Whether `s` starts with the literal `lit`.
pub fn starts_with_lit(s: &[char], lit: &str) -> (r: bool)
    ensures
        r == has_prefix(s@, lit@),
{
    let p = chars_of(lit);
    starts_with(s, &p)
}

// --- Suffixes ------------------------------------------------------------

/// `s` with every trailing occurrence of the non-empty `suffix` removed
/// (`str::trim_end_matches`).
pub open spec fn trim_trailing(s: Seq<char>, suffix: Seq<char>) -> Seq<char>
    decreases s.len(),
{
    if suffix.len() > 0 && s.len() >= suffix.len() && s.skip(s.len() - suffix.len()) == suffix {
        trim_trailing(s.take(s.len() - suffix.len()), suffix)
    } else {
        s
    }
}

/// Removes every trailing occurrence of `suffix` from `s`.
pub fn trim_trailing_chars(s: &[char], suffix: &[char]) -> (r: Vec<char>)
    ensures
        r@ == trim_trailing(s@, suffix@),
{
    let mut k: usize = s.len();
    assert(s@.take(k as int) == s@);
    if suffix.len() == 0 {
        return slice_to_vec(s, 0, k);
    }
    loop
        invariant
            k <= s@.len(),
            suffix@.len() > 0,
            trim_trailing(s@.take(k as int), suffix@) == trim_trailing(s@, suffix@),
        ensures
            k <= s@.len(),
            trim_trailing(s@, suffix@) == s@.take(k as int),
        decreases k,
    {
        if k < suffix.len() {
            break;
        }
        let mut j: usize = 0;
        let start = k - suffix.len();
        while j < suffix.len()
            invariant
                start + suffix@.len() == k,
                k <= s@.len(),
                j <= suffix@.len(),
                forall|t: int| 0 <= t < j ==> s@[start + t] == suffix@[t],
            ensures
                j <= suffix@.len(),
                forall|t: int| 0 <= t < j ==> s@[start + t] == suffix@[t],
                j < suffix@.len() ==> s@[start + j] != suffix@[j as int],
            decreases suffix@.len() - j,
        {
            if s[start + j] != suffix[j] {
                break;
            }
            j += 1;
        }
        let ghost t = s@.take(k as int);
        if j == suffix.len() {
            assert(t.skip(t.len() - suffix@.len()) =~= suffix@);
            assert(t.take(t.len() - suffix@.len()) =~= s@.take(start as int));
            k = start;
        } else {
            assert(t.skip(t.len() - suffix@.len())[j as int] != suffix@[j as int]);
            break;
        }
    }
    let r = slice_to_vec(s, 0, k);
    r
}

/// Position of the first occurrence of the non-empty `n` in `h`.
pub fn find_sub_chars(h: &[char], n: &[char]) -> (r: Option<usize>)
    requires
        n@.len() > 0,
    ensures
        match r {
            Some(i) => find_sub(h@, n@) == Some(i as int) && i + n@.len() <= h@.len(),
            None => find_sub(h@, n@) is None,
        },
{
    let mut i: usize = 0;
    while i <= h.len() && n.len() <= h.len() - i
        invariant
            i <= h@.len(),
            n@.len() > 0,
            find_sub(h@, n@) == find_sub_from(h@, n@, i as int),
        decreases h@.len() - i,
    {
        if matches_at(h, n, i) {
            return Some(i);
        }
        i += 1;
    }
    None
}

} // verus!
