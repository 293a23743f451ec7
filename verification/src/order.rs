//! Orders and stable sorting.
//!
//! Strings order by their characters' code points, which is the byte order
//! of their UTF-8 encodings (`Ord` on `str`). Sorting is stable: `sort_seq`
//! inserts the elements one by one, each after every earlier element that
//! does not order after it.
use vstd::prelude::*;

verus! {

/// The outcome of a three-way comparison.
#[derive(Clone, Copy, PartialEq, Eq, Debug)]
pub enum Comparison {
    /// The left side orders first.
    Less,
    /// Both sides are equal.
    Equal,
    /// The right side orders first.
    Greater,
}

/// Lexicographic strict order on character sequences by code point.
pub open spec fn seq_lt(a: Seq<char>, b: Seq<char>) -> bool
    decreases a.len(),
{
    if a.len() == 0 {
        b.len() > 0
    } else if b.len() == 0 {
        false
    } else if a[0] != b[0] {
        (a[0] as int) < (b[0] as int)
    } else {
        seq_lt(a.drop_first(), b.drop_first())
    }
}

/// Lexicographic order on character sequences, equality included.
pub open spec fn seq_le(a: Seq<char>, b: Seq<char>) -> bool {
    a == b || seq_lt(a, b)
}

/// `seq_lt` is irreflexive and total up to equality.
pub proof fn lemma_seq_lt_total(a: Seq<char>, b: Seq<char>)
    ensures
        !seq_lt(a, a),
        a == b || seq_lt(a, b) || seq_lt(b, a),
        !(seq_lt(a, b) && seq_lt(b, a)),
    decreases a.len(),
{
    if a.len() > 0 {
        lemma_seq_lt_total(a.drop_first(), a.drop_first());
        if b.len() > 0 {
            lemma_seq_lt_total(a.drop_first(), b.drop_first());
            if a[0] != b[0] {
                assert((a[0] as int) != (b[0] as int));
            }
            if a[0] == b[0] && a.drop_first() == b.drop_first() {
                assert forall|j: int| 0 <= j < a.len() implies a[j] == b[j] by {
                    if j > 0 {
                        assert(a[j] == a.drop_first()[j - 1]);
                        assert(b[j] == b.drop_first()[j - 1]);
                    }
                }
                assert(a =~= b);
            }
        }
    } else if b.len() == 0 {
        assert(a =~= b);
    }
}

/// `seq_lt` is transitive.
pub proof fn lemma_seq_lt_trans(a: Seq<char>, b: Seq<char>, c: Seq<char>)
    requires
        seq_lt(a, b),
        seq_lt(b, c),
    ensures
        seq_lt(a, c),
    decreases a.len(),
{
    if a.len() > 0 && b.len() > 0 && c.len() > 0 {
        if a[0] == b[0] && b[0] == c[0] {
            lemma_seq_lt_trans(a.drop_first(), b.drop_first(), c.drop_first());
        }
    }
}

/// Compares two character slices lexicographically (`Ord` on `str`).
pub fn compare_chars(a: &[char], b: &[char]) -> (r: Comparison)
    ensures
        r == Comparison::Less <==> seq_lt(a@, b@),
        r == Comparison::Equal <==> a@ == b@,
        r == Comparison::Greater <==> seq_lt(b@, a@),
{
    proof {
        lemma_seq_lt_total(a@, b@);
    }
    let mut i: usize = 0;
    assert(a@.skip(0) == a@);
    assert(b@.skip(0) == b@);
    while i < a.len() && i < b.len()
        invariant
            i <= a@.len(),
            i <= b@.len(),
            a@.take(i as int) == b@.take(i as int),
            seq_lt(a@, b@) == seq_lt(a@.skip(i as int), b@.skip(i as int)),
            seq_lt(b@, a@) == seq_lt(b@.skip(i as int), a@.skip(i as int)),
        decreases a@.len() - i,
    {
        if a[i] != b[i] {
            assert(a@.skip(i as int)[0] == a@[i as int]);
            assert(b@.skip(i as int)[0] == b@[i as int]);
            assert(a@.take(i as int) != a@ || true);
            if a[i] < b[i] {
                proof {
                    lemma_seq_lt_total(a@, b@);
                }
                assert(a@[i as int] != b@[i as int]);
                assert(a@ != b@);
                return Comparison::Less;
            } else {
                proof {
                    lemma_seq_lt_total(a@, b@);
                }
                assert(a@ != b@);
                return Comparison::Greater;
            }
        }
        assert(a@.skip(i as int).drop_first() == a@.skip(i + 1));
        assert(b@.skip(i as int).drop_first() == b@.skip(i + 1));
        assert(a@.take(i + 1) == a@.take(i as int).push(a@[i as int]));
        assert(b@.take(i + 1) == b@.take(i as int).push(b@[i as int]));
        i += 1;
    }
    if a.len() == b.len() {
        assert(a@ =~= b@) by {
            assert(a@.take(i as int) == a@);
            assert(b@.take(i as int) == b@);
        }
        Comparison::Equal
    } else if a.len() < b.len() {
        assert(a@.skip(i as int).len() == 0);
        assert(a@ != b@);
        Comparison::Less
    } else {
        assert(b@.skip(i as int).len() == 0);
        assert(a@ != b@);
        Comparison::Greater
    }
}

/// Compares two strings by their characters (`Ord` on `str`).
pub fn compare_str(a: &str, b: &str) -> (r: Comparison)
    ensures
        r == Comparison::Less <==> seq_lt(a@, b@),
        r == Comparison::Equal <==> a@ == b@,
        r == Comparison::Greater <==> seq_lt(b@, a@),
{
    let x = crate::text::chars_of(a);
    let y = crate::text::chars_of(b);
    compare_chars(&x, &y)
}

/// Lexicographic strict order on sequences of strings (`Ord` on
/// `Vec<String>`).
pub open spec fn strs_lt(a: Seq<Seq<char>>, b: Seq<Seq<char>>) -> bool
    decreases a.len(),
{
    if a.len() == 0 {
        b.len() > 0
    } else if b.len() == 0 {
        false
    } else if a[0] != b[0] {
        seq_lt(a[0], b[0])
    } else {
        strs_lt(a.drop_first(), b.drop_first())
    }
}

/// `strs_lt` is irreflexive and total up to equality.
pub proof fn lemma_strs_lt_total(a: Seq<Seq<char>>, b: Seq<Seq<char>>)
    ensures
        !strs_lt(a, a),
        a == b || strs_lt(a, b) || strs_lt(b, a),
        !(strs_lt(a, b) && strs_lt(b, a)),
    decreases a.len(),
{
    if a.len() > 0 {
        lemma_strs_lt_total(a.drop_first(), a.drop_first());
        if b.len() > 0 {
            lemma_strs_lt_total(a.drop_first(), b.drop_first());
            lemma_seq_lt_total(a[0], b[0]);
            if a[0] == b[0] && a.drop_first() == b.drop_first() {
                assert forall|j: int| 0 <= j < a.len() implies a[j] == b[j] by {
                    if j > 0 {
                        assert(a[j] == a.drop_first()[j - 1]);
                        assert(b[j] == b.drop_first()[j - 1]);
                    }
                }
                assert(a =~= b);
            }
        }
    } else if b.len() == 0 {
        assert(a =~= b);
    }
}

/// `strs_lt` is transitive.
pub proof fn lemma_strs_lt_trans(a: Seq<Seq<char>>, b: Seq<Seq<char>>, c: Seq<Seq<char>>)
    requires
        strs_lt(a, b),
        strs_lt(b, c),
    ensures
        strs_lt(a, c),
    decreases a.len(),
{
    if a.len() > 0 && b.len() > 0 && c.len() > 0 {
        lemma_seq_lt_total(a[0], c[0]);
        lemma_seq_lt_total(a[0], b[0]);
        if a[0] != b[0] && b[0] != c[0] {
            lemma_seq_lt_trans(a[0], b[0], c[0]);
        } else if a[0] == b[0] && b[0] == c[0] {
            lemma_strs_lt_trans(a.drop_first(), b.drop_first(), c.drop_first());
        }
    }
}

/// Lists of strings order totally and transitively.
pub proof fn lemma_strs_order()
    ensures
        order_total::<Seq<Seq<char>>>(),
        order_transitive::<Seq<Seq<char>>>(),
{
    assert forall|a: Seq<Seq<char>>, b: Seq<Seq<char>>| #[trigger] a.order_le(&b) || b.order_le(&a) by {
        lemma_strs_lt_total(a, b);
    }
    assert forall|a: Seq<Seq<char>>, b: Seq<Seq<char>>, c: Seq<Seq<char>>|
        #![trigger a.order_le(&b), b.order_le(&c)]
        a.order_le(&b) && b.order_le(&c) implies a.order_le(&c) by {
        if strs_lt(a, b) && strs_lt(b, c) {
            lemma_strs_lt_trans(a, b, c);
        }
    }
}

/// Whether `a` orders no later than `b` as a list of strings.
pub fn strings_le(a: &[String], b: &[String]) -> (r: bool)
    ensures
        r == (a@.map_values(|x: String| x@) == b@.map_values(|x: String| x@) || strs_lt(
            a@.map_values(|x: String| x@),
            b@.map_values(|x: String| x@),
        )),
{
    let ghost sa = a@.map_values(|x: String| x@);
    let ghost sb = b@.map_values(|x: String| x@);
    let mut i: usize = 0;
    assert(sa.skip(0) == sa);
    assert(sb.skip(0) == sb);
    while i < a.len() && i < b.len()
        invariant
            i <= a@.len(),
            i <= b@.len(),
            sa == a@.map_values(|x: String| x@),
            sb == b@.map_values(|x: String| x@),
            sa.take(i as int) == sb.take(i as int),
            strs_lt(sa, sb) == strs_lt(sa.skip(i as int), sb.skip(i as int)),
        decreases a@.len() - i,
    {
        assert(sa.skip(i as int)[0] == sa[i as int]);
        assert(sb.skip(i as int)[0] == sb[i as int]);
        assert(sa[i as int] == a@[i as int]@);
        assert(sb[i as int] == b@[i as int]@);
        match compare_str(&a[i], &b[i]) {
            Comparison::Less => {
                assert(sa != sb) by {
                    lemma_seq_lt_total(sa[i as int], sa[i as int]);
                }
                return true;
            },
            Comparison::Greater => {
                proof {
                    lemma_seq_lt_total(sa[i as int], sb[i as int]);
                }
                assert(sa != sb) by {
                    lemma_seq_lt_total(sb[i as int], sb[i as int]);
                }
                return false;
            },
            Comparison::Equal => {},
        }
        assert(sa.skip(i as int).drop_first() == sa.skip(i + 1));
        assert(sb.skip(i as int).drop_first() == sb.skip(i + 1));
        assert(sa.take(i + 1) == sa.take(i as int).push(sa[i as int]));
        assert(sb.take(i + 1) == sb.take(i as int).push(sb[i as int]));
        i += 1;
    }
    if a.len() <= b.len() {
        if a.len() == b.len() {
            assert(sa =~= sb) by {
                assert(sa.take(i as int) == sa);
                assert(sb.take(i as int) == sb);
            }
        }
        true
    } else {
        assert(sb.skip(i as int).len() == 0);
        assert(sa.len() != sb.len());
        false
    }
}

impl SpecOrder for Seq<Seq<char>> {
    /// Lists of strings order lexicographically.
    open spec fn order_le(&self, other: &Self) -> bool {
        *self == *other || strs_lt(*self, *other)
    }
}

// --- Stable sorting -----------------------------------------------------

/// A sort order on abstract values: `order_le(a, b)` holds when `a` may
/// stay before `b`.
pub trait SpecOrder {
    /// Whether `self` orders no later than `other`.
    spec fn order_le(&self, other: &Self) -> bool;
}

/// An executable value whose view carries a sort order.
pub trait SortKey: View + Sized where Self::V: SpecOrder {
    /// Executable `order_le` on the views.
    fn sort_le_exec(&self, other: &Self) -> (r: bool)
        ensures
            r == self@.order_le(&other@),
    ;
}

/// The views of a sequence of executable values.
pub open spec fn views<T: View>(s: Seq<T>) -> Seq<T::V> {
    s.map_values(|x: T| x@)
}

/// `s` (assumed sorted) with `x` inserted after the last element that
/// orders no later than `x`.
pub open spec fn insert_sorted<V: SpecOrder>(s: Seq<V>, x: V) -> Seq<V>
    decreases s.len(),
{
    if s.len() == 0 {
        seq![x]
    } else if s.last().order_le(&x) {
        s.push(x)
    } else {
        insert_sorted(s.drop_last(), x).push(s.last())
    }
}

/// The stable sort of `s`: its elements inserted one by one, in order.
pub open spec fn sort_seq<V: SpecOrder>(s: Seq<V>) -> Seq<V>
    decreases s.len(),
{
    if s.len() == 0 {
        s
    } else {
        insert_sorted(sort_seq(s.drop_last()), s.last())
    }
}

/// Whether `s` is ordered by `order_le`.
pub open spec fn is_sorted<V: SpecOrder>(s: Seq<V>) -> bool {
    forall|i: int, j: int| 0 <= i < j < s.len() ==> s[i].order_le(&s[j])
}

/// Inserting keeps the elements: one more `x`.
pub proof fn lemma_insert_sorted_multiset<V: SpecOrder>(s: Seq<V>, x: V)
    ensures
        insert_sorted(s, x).to_multiset() == s.to_multiset().insert(x),
        insert_sorted(s, x).len() == s.len() + 1,
    decreases s.len(),
{
    broadcast use vstd::seq_lib::group_to_multiset_ensures;

    if s.len() > 0 {
        lemma_insert_sorted_multiset(s.drop_last(), x);
        assert(s == s.drop_last().push(s.last()));
    } else {
        assert(seq![x] == Seq::<V>::empty().push(x));
    }
}

/// Sorting keeps exactly the elements of its input.
pub proof fn lemma_sort_multiset<V: SpecOrder>(s: Seq<V>)
    ensures
        sort_seq(s).to_multiset() == s.to_multiset(),
        sort_seq(s).len() == s.len(),
    decreases s.len(),
{
    broadcast use vstd::seq_lib::group_to_multiset_ensures;

    if s.len() > 0 {
        lemma_sort_multiset(s.drop_last());
        lemma_insert_sorted_multiset(sort_seq(s.drop_last()), s.last());
        assert(s == s.drop_last().push(s.last()));
    }
}

/// Whether `order_le` is total on `V`: of any two values, one orders no
/// later than the other.
pub open spec fn order_total<V: SpecOrder>() -> bool {
    forall|a: V, b: V| #[trigger] a.order_le(&b) || b.order_le(&a)
}

/// Whether `order_le` is transitive on `V`.
pub open spec fn order_transitive<V: SpecOrder>() -> bool {
    forall|a: V, b: V, c: V|
        #![trigger a.order_le(&b), b.order_le(&c)]
        a.order_le(&b) && b.order_le(&c) ==> a.order_le(&c)
}

/// Inserting into a sorted sequence keeps it sorted, and adds nothing but
/// `x`.
proof fn lemma_insert_sorted_sorted<V: SpecOrder>(s: Seq<V>, x: V)
    requires
        is_sorted(s),
        order_total::<V>(),
        order_transitive::<V>(),
    ensures
        is_sorted(insert_sorted(s, x)),
        forall|k: int|
            0 <= k < insert_sorted(s, x).len() ==> #[trigger] insert_sorted(s, x)[k] == x
                || s.contains(insert_sorted(s, x)[k]),
    decreases s.len(),
{
    lemma_insert_sorted_multiset(s, x);
    if s.len() == 0 {
    } else if s.last().order_le(&x) {
        let r = s.push(x);
        assert forall|i: int, j: int| 0 <= i < j < r.len() implies r[i].order_le(&r[j]) by {
            if j == s.len() {
                if i < s.len() - 1 {
                    assert(s[i].order_le(&s[s.len() - 1]));
                }
            } else {
                assert(s[i].order_le(&s[j]));
            }
        }
        assert forall|k: int| 0 <= k < r.len() implies #[trigger] r[k] == x || s.contains(r[k]) by {
            if k < s.len() {
                assert(s[k] == r[k]);
            }
        }
    } else {
        let d = s.drop_last();
        assert(is_sorted(d)) by {
            assert forall|i: int, j: int| 0 <= i < j < d.len() implies d[i].order_le(&d[j]) by {
                assert(d[i] == s[i] && d[j] == s[j]);
            }
        }
        lemma_insert_sorted_sorted(d, x);
        let t = insert_sorted(d, x);
        let r = t.push(s.last());
        assert(x.order_le(&s.last()));
        assert forall|k: int| 0 <= k < t.len() implies #[trigger] t[k].order_le(&s.last()) by {
            if t[k] != x {
                assert(d.contains(t[k]));
                let m = choose|m: int| 0 <= m < d.len() && d[m] == t[k];
                assert(s[m] == d[m]);
                assert(s[m].order_le(&s[s.len() - 1]));
            }
        }
        assert forall|i: int, j: int| 0 <= i < j < r.len() implies r[i].order_le(&r[j]) by {
            if j == t.len() {
                assert(t[i].order_le(&s.last()));
            } else {
                assert(t[i].order_le(&t[j]));
            }
        }
        assert forall|k: int| 0 <= k < r.len() implies #[trigger] r[k] == x || s.contains(r[k]) by {
            if k < t.len() {
                assert(r[k] == t[k]);
                if t[k] != x {
                    assert(d.contains(t[k]));
                    let m = choose|m: int| 0 <= m < d.len() && d[m] == t[k];
                    assert(s[m] == d[m]);
                }
            } else {
                assert(s[s.len() - 1] == r[k]);
            }
        }
    }
}

/// Sorting by a total, transitive order yields a sorted sequence.
pub proof fn lemma_sort_sorted<V: SpecOrder>(s: Seq<V>)
    requires
        order_total::<V>(),
        order_transitive::<V>(),
    ensures
        is_sorted(sort_seq(s)),
    decreases s.len(),
{
    if s.len() > 0 {
        lemma_sort_sorted(s.drop_last());
        lemma_insert_sorted_sorted(sort_seq(s.drop_last()), s.last());
    }
}

/// Sorting keeps the elements: every element of the sorted sequence is an
/// element of its input, and the other way round.
pub proof fn lemma_sort_contains<V: SpecOrder>(s: Seq<V>)
    ensures
        forall|k: int| 0 <= k < sort_seq(s).len() ==> s.contains(#[trigger] sort_seq(s)[k]),
        forall|k: int| 0 <= k < s.len() ==> sort_seq(s).contains(#[trigger] s[k]),
{
    broadcast use vstd::seq_lib::group_to_multiset_ensures;

    lemma_sort_multiset(s);
    assert forall|k: int| 0 <= k < sort_seq(s).len() implies s.contains(#[trigger] sort_seq(s)[k]) by {
        let y = sort_seq(s)[k];
        assert(sort_seq(s).contains(y));
        assert(sort_seq(s).to_multiset().count(y) > 0);
        assert(s.to_multiset().count(y) > 0);
    }
    assert forall|k: int| 0 <= k < s.len() implies sort_seq(s).contains(#[trigger] s[k]) by {
        let y = s[k];
        assert(s.contains(y));
        assert(s.to_multiset().count(y) > 0);
        assert(sort_seq(s).to_multiset().count(y) > 0);
    }
}

/// A prefix of a sorted sequence is sorted.
pub proof fn lemma_sorted_take<V: SpecOrder>(s: Seq<V>, n: int)
    requires
        is_sorted(s),
        0 <= n <= s.len(),
    ensures
        is_sorted(s.take(n)),
{
    assert forall|i: int, j: int| 0 <= i < j < s.take(n).len() implies s.take(n)[i].order_le(
        &s.take(n)[j],
    ) by {
        assert(s[i].order_le(&s[j]));
    }
}

/// The stable merge of `a` and `b`, built from the back: the last element
/// is `b`'s last unless `a`'s last orders after it.
pub open spec fn merge_back<V: SpecOrder>(a: Seq<V>, b: Seq<V>) -> Seq<V>
    decreases a.len() + b.len(),
{
    if a.len() == 0 {
        b
    } else if b.len() == 0 {
        a
    } else if a.last().order_le(&b.last()) {
        merge_back(a, b.drop_last()).push(b.last())
    } else {
        merge_back(a.drop_last(), b).push(a.last())
    }
}

/// Inserting into a sequence is merging a single element into it.
proof fn lemma_insert_is_merge<V: SpecOrder>(p: Seq<V>, x: V)
    ensures
        insert_sorted(p, x) == merge_back(p, seq![x]),
    decreases p.len(),
{
    if p.len() > 0 {
        let e = Seq::<V>::empty();
        assert(seq![x].drop_last() =~= e);
        assert(seq![x].last() == x);
        assert(seq![x].len() == 1);
        if !p.last().order_le(&x) {
            lemma_insert_is_merge(p.drop_last(), x);
            assert(merge_back(p, seq![x]) == merge_back(p.drop_last(), seq![x]).push(p.last()));
        } else {
            assert(merge_back(p, e) == p);
            assert(merge_back(p, seq![x]) == merge_back(p, e).push(x));
        }
    } else {
        assert(merge_back(p, seq![x]) == seq![x]);
    }
}

/// Inserting into a merge is merging with the insertion into its right
/// side.
proof fn lemma_insert_merge<V: SpecOrder>(p: Seq<V>, q: Seq<V>, x: V)
    requires
        order_total::<V>(),
        order_transitive::<V>(),
    ensures
        insert_sorted(merge_back(p, q), x) == merge_back(p, insert_sorted(q, x)),
    decreases p.len() + q.len(),
{
    if p.len() == 0 {
    } else if q.len() == 0 {
        lemma_insert_is_merge(p, x);
        assert(insert_sorted(q, x) == seq![x]);
    } else {
        let (pl, ql) = (p.last(), q.last());
        let q2 = insert_sorted(q, x);
        if pl.order_le(&ql) {
            let m0 = merge_back(p, q.drop_last());
            assert(merge_back(p, q) == m0.push(ql));
            assert(m0.push(ql).drop_last() == m0);
            if ql.order_le(&x) {
                assert(q2 == q.push(x));
                assert(q.push(x).drop_last() == q);
                assert(pl.order_le(&x));
            } else {
                lemma_insert_merge(p, q.drop_last(), x);
                assert(q2 == insert_sorted(q.drop_last(), x).push(ql));
                assert(insert_sorted(q.drop_last(), x).push(ql).drop_last() == insert_sorted(q.drop_last(), x));
            }
        } else {
            let m0 = merge_back(p.drop_last(), q);
            assert(merge_back(p, q) == m0.push(pl));
            assert(m0.push(pl).drop_last() == m0);
            assert(ql.order_le(&pl));
            if pl.order_le(&x) {
                assert(ql.order_le(&x));
                assert(q2 == q.push(x));
                assert(q.push(x).drop_last() == q);
            } else {
                lemma_insert_merge(p.drop_last(), q, x);
                if ql.order_le(&x) {
                    assert(q2 == q.push(x));
                    assert(q2.last() == x);
                } else {
                    assert(q2 == insert_sorted(q.drop_last(), x).push(ql));
                    assert(q2.last() == ql);
                }
            }
        }
    }
}

/// Sorting a concatenation is merging the sorted parts.
pub proof fn lemma_sort_append<V: SpecOrder>(a: Seq<V>, b: Seq<V>)
    requires
        order_total::<V>(),
        order_transitive::<V>(),
    ensures
        sort_seq(a + b) == merge_back(sort_seq(a), sort_seq(b)),
    decreases b.len(),
{
    if b.len() == 0 {
        assert(a + b =~= a);
        if sort_seq(a).len() == 0 {
            assert(sort_seq(a) =~= b);
        }
    } else {
        let b0 = b.drop_last();
        lemma_sort_append(a, b0);
        assert((a + b).drop_last() =~= a + b0);
        assert((a + b).last() == b.last());
        lemma_insert_merge(sort_seq(a), sort_seq(b0), b.last());
    }
}

/// Merges `a` and `b` as `merge_back` does, taking from the backs.
fn merge_vecs<T: SortKey>(a: Vec<T>, b: Vec<T>) -> (r: Vec<T>) where T::V: SpecOrder
    ensures
        views(r@) == merge_back(views(a@), views(b@)),
{
    let ghost whole = merge_back(views(a@), views(b@));
    let mut a = a;
    let mut b = b;
    // What has been taken, the last element first.
    let mut back: Vec<T> = Vec::new();
    let ghost mut tail: Seq<T::V> = Seq::empty();
    assert(merge_back(views(a@), views(b@)) + tail =~= whole);
    while a.len() > 0 && b.len() > 0
        invariant
            whole == merge_back(views(a@), views(b@)) + tail,
            back@.len() == tail.len(),
            forall|k: int| 0 <= k < tail.len() ==> #[trigger] back@[k]@ == tail[tail.len() - 1 - k],
        decreases a@.len() + b@.len(),
    {
        let ghost (va, vb) = (views(a@), views(b@));
        let la = a.len();
        let lb = b.len();
        assert(va.last() == a@[la - 1]@);
        assert(vb.last() == b@[lb - 1]@);
        let take_b = a[la - 1].sort_le_exec(&b[lb - 1]);
        let x = if take_b {
            let x = b.pop().unwrap();
            assert(views(b@) =~= vb.drop_last());
            x
        } else {
            let x = a.pop().unwrap();
            assert(views(a@) =~= va.drop_last());
            x
        };
        let ghost old_tail = tail;
        let ghost old_back = back@;
        proof {
            tail = seq![x@] + tail;
            assert(merge_back(va, vb) == merge_back(views(a@), views(b@)).push(x@));
            assert(merge_back(views(a@), views(b@)).push(x@) + old_tail =~= merge_back(
                views(a@),
                views(b@),
            ) + tail);
        }
        back.push(x);
        assert forall|k: int| 0 <= k < tail.len() implies #[trigger] back@[k]@ == tail[tail.len() - 1 - k] by {
            if k < old_tail.len() {
                assert(back@[k] == old_back[k]);
            }
        }
    }
    let mut out = if a.len() == 0 {
        b
    } else {
        a
    };
    assert(whole == views(out@) + tail);
    while back.len() > 0
        invariant
            whole == views(out@) + tail,
            back@.len() == tail.len(),
            forall|k: int| 0 <= k < tail.len() ==> #[trigger] back@[k]@ == tail[tail.len() - 1 - k],
        decreases back@.len(),
    {
        let ghost before = back@;
        let x = back.pop().unwrap();
        assert(x@ == tail[0]);
        let ghost old_tail = tail;
        let ghost old_out = views(out@);
        out.push(x);
        proof {
            tail = tail.drop_first();
            assert(views(out@) =~= old_out.push(x@));
            assert(old_out + old_tail =~= views(out@) + tail);
            assert forall|k: int| 0 <= k < tail.len() implies #[trigger] back@[k]@ == tail[tail.len() - 1 - k] by {
                assert(back@[k] == before[k]);
            }
        }
    }
    assert(views(out@) + tail =~= views(out@));
    out
}

/// The sort of a sequence of at most one element is itself.
proof fn lemma_sort_short<V: SpecOrder>(s: Seq<V>)
    requires
        s.len() <= 1,
    ensures
        sort_seq(s) == s,
{
    if s.len() == 1 {
        let e = Seq::<V>::empty();
        assert(s.drop_last() =~= e);
        assert(sort_seq(e) == e);
        assert(insert_sorted(e, s.last()) == seq![s.last()]);
        assert(s =~= seq![s.last()]);
    }
}

/// Stable sort of `v` by the order of its elements' views (`slice::sort_by`).
pub fn sort_by_key<T: SortKey>(v: Vec<T>) -> (r: Vec<T>) where T::V: SpecOrder
    requires
        order_total::<T::V>(),
        order_transitive::<T::V>(),
    ensures
        views(r@) == sort_seq(views(v@)),
    decreases v@.len(),
{
    let n = v.len();
    if n <= 1 {
        proof {
            lemma_sort_short(views(v@));
        }
        return v;
    }
    let ghost whole = v@;
    let mut left = v;
    let right = left.split_off(n / 2);
    assert(views(whole) =~= views(left@) + views(right@));
    let ghost (vl, vr) = (views(left@), views(right@));
    let sl = sort_by_key(left);
    let sr = sort_by_key(right);
    proof {
        lemma_sort_append(vl, vr);
    }
    merge_vecs(sl, sr)
}

impl SpecOrder for Seq<char> {
    /// Strings order by their characters.
    open spec fn order_le(&self, other: &Self) -> bool {
        seq_le(*self, *other)
    }
}

/// Strings order totally and transitively.
pub proof fn lemma_chars_order()
    ensures
        order_total::<Seq<char>>(),
        order_transitive::<Seq<char>>(),
{
    assert forall|a: Seq<char>, b: Seq<char>| #[trigger] a.order_le(&b) || b.order_le(&a) by {
        lemma_seq_lt_total(a, b);
    }
    assert forall|a: Seq<char>, b: Seq<char>, c: Seq<char>|
        #![trigger a.order_le(&b), b.order_le(&c)]
        a.order_le(&b) && b.order_le(&c) implies a.order_le(&c) by {
        if seq_lt(a, b) && seq_lt(b, c) {
            lemma_seq_lt_trans(a, b, c);
        }
    }
}

impl SortKey for String {
    fn sort_le_exec(&self, other: &Self) -> (r: bool) {
        match compare_str(self, other) {
            Comparison::Greater => false,
            _ => true,
        }
    }
}

// --- Runs ----------------------------------------------------------------

/// `s` with runs of equal consecutive elements collapsed (`Vec::dedup`).
pub open spec fn dedup_runs<A>(s: Seq<A>) -> Seq<A>
    decreases s.len(),
{
    if s.len() <= 1 {
        s
    } else {
        let d = dedup_runs(s.drop_last());
        if s.last() == s[s.len() - 2] {
            d
        } else {
            d.push(s.last())
        }
    }
}

/// Collapsing runs keeps the last element.
pub proof fn lemma_dedup_runs_last<A>(s: Seq<A>)
    requires
        s.len() >= 1,
    ensures
        dedup_runs(s).len() >= 1,
        dedup_runs(s).last() == s.last(),
    decreases s.len(),
{
    if s.len() > 1 {
        lemma_dedup_runs_last(s.drop_last());
    }
}

} // verus!
