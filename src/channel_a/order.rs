//! Lexicographic byte order on keys, and sorting of keyed entries by it.

use vstd::prelude::*;

verus! {

broadcast use vstd::seq::group_seq_axioms;

/// Strict lexicographic order on byte strings; a proper prefix comes first.
pub open spec fn bytes_lt(a: Seq<u8>, b: Seq<u8>) -> bool
    decreases a.len(),
{
    if a.len() == 0 {
        b.len() > 0
    } else if b.len() == 0 {
        false
    } else if a[0] != b[0] {
        a[0] < b[0]
    } else {
        bytes_lt(a.drop_first(), b.drop_first())
    }
}

pub proof fn lemma_bytes_lt_irreflexive(a: Seq<u8>)
    ensures
        !bytes_lt(a, a),
    decreases a.len(),
{
    if a.len() > 0 {
        lemma_bytes_lt_irreflexive(a.drop_first());
    }
}

pub proof fn lemma_bytes_lt_asymmetric(a: Seq<u8>, b: Seq<u8>)
    ensures
        bytes_lt(a, b) ==> !bytes_lt(b, a),
    decreases a.len(),
{
    if a.len() > 0 && b.len() > 0 && a[0] == b[0] {
        lemma_bytes_lt_asymmetric(a.drop_first(), b.drop_first());
    }
}

pub proof fn lemma_bytes_lt_transitive(a: Seq<u8>, b: Seq<u8>, c: Seq<u8>)
    ensures
        bytes_lt(a, b) && bytes_lt(b, c) ==> bytes_lt(a, c),
    decreases a.len(),
{
    if a.len() > 0 && b.len() > 0 && c.len() > 0 {
        lemma_bytes_lt_transitive(a.drop_first(), b.drop_first(), c.drop_first());
    }
}

pub proof fn lemma_bytes_lt_total(a: Seq<u8>, b: Seq<u8>)
    ensures
        a != b ==> bytes_lt(a, b) || bytes_lt(b, a),
    decreases a.len(),
{
    if a.len() > 0 && b.len() > 0 && a[0] == b[0] {
        lemma_bytes_lt_total(a.drop_first(), b.drop_first());
        if a.drop_first() == b.drop_first() {
            assert(a =~= seq![a[0]] + a.drop_first());
            assert(b =~= seq![b[0]] + b.drop_first());
        }
    } else if a.len() == 0 && b.len() == 0 {
        assert(a =~= b);
    }
}

/// Inserts an entry after every entry whose key is not greater than its own.
pub open spec fn insert_by_key<V>(s: Seq<(Seq<u8>, V)>, e: (Seq<u8>, V)) -> Seq<(Seq<u8>, V)>
    decreases s.len(),
{
    if s.len() == 0 {
        seq![e]
    } else if !bytes_lt(e.0, s.last().0) {
        s.push(e)
    } else {
        insert_by_key(s.drop_last(), e).push(s.last())
    }
}

/// Stable sort of entries by key.
pub open spec fn sort_by_key<V>(s: Seq<(Seq<u8>, V)>) -> Seq<(Seq<u8>, V)>
    decreases s.len(),
{
    if s.len() == 0 {
        s
    } else {
        insert_by_key(sort_by_key(s.drop_last()), s.last())
    }
}

/// No key is smaller than a key before it.
pub open spec fn sorted_by_key<V>(s: Seq<(Seq<u8>, V)>) -> bool {
    forall|i: int, j: int| 0 <= i < j < s.len() ==> !bytes_lt(#[trigger] s[j].0, #[trigger] s[i].0)
}

/// Keys strictly increase.
pub open spec fn strictly_sorted_by_key<V>(s: Seq<(Seq<u8>, V)>) -> bool {
    forall|i: int, j: int| 0 <= i < j < s.len() ==> bytes_lt(#[trigger] s[i].0, #[trigger] s[j].0)
}

/// No key occurs twice.
pub open spec fn distinct_by_key<V>(s: Seq<(Seq<u8>, V)>) -> bool {
    forall|i: int, j: int| 0 <= i < j < s.len() ==> #[trigger] s[i].0 != #[trigger] s[j].0
}

pub proof fn lemma_insert_contents<V>(s: Seq<(Seq<u8>, V)>, e: (Seq<u8>, V))
    ensures
        insert_by_key(s, e).len() == s.len() + 1,
        forall|x: (Seq<u8>, V)| #[trigger] insert_by_key(s, e).contains(x) <==> s.contains(x) || x == e,
    decreases s.len(),
{
    if s.len() > 0 && bytes_lt(e.0, s.last().0) {
        lemma_insert_contents(s.drop_last(), e);
        let r = insert_by_key(s, e);
        assert forall|x: (Seq<u8>, V)| r.contains(x) <==> s.contains(x) || x == e by {
            if s.contains(x) && x != s.last() {
                let i = choose|i: int| 0 <= i < s.len() && s[i] == x;
                assert(s.drop_last()[i] == x);
            }
            if s.drop_last().contains(x) {
                let i = choose|i: int| 0 <= i < s.len() - 1 && s.drop_last()[i] == x;
                assert(s[i] == x);
            }
            if insert_by_key(s.drop_last(), e).contains(x) {
                let i = choose|i: int| 0 <= i < s.len() && insert_by_key(s.drop_last(), e)[i] == x;
                assert(r[i] == x);
            }
            if r.contains(x) && x != s.last() {
                let i = choose|i: int| 0 <= i < r.len() && r[i] == x;
                assert(insert_by_key(s.drop_last(), e)[i] == x);
            }
            if x == s.last() {
                assert(r[r.len() - 1] == x);
                assert(s[s.len() - 1] == x);
            }
        }
    } else if s.len() > 0 {
        let r = s.push(e);
        assert forall|x: (Seq<u8>, V)| r.contains(x) <==> s.contains(x) || x == e by {
            if s.contains(x) {
                let i = choose|i: int| 0 <= i < s.len() && s[i] == x;
                assert(r[i] == x);
            }
            if r.contains(x) && x != e {
                let i = choose|i: int| 0 <= i < r.len() && r[i] == x;
                assert(s[i] == x);
            }
            assert(r[s.len() as int] == e);
        }
    } else {
        assert(seq![e][0] == e);
    }
}

pub proof fn lemma_insert_sorted<V>(s: Seq<(Seq<u8>, V)>, e: (Seq<u8>, V))
    requires
        sorted_by_key(s),
    ensures
        sorted_by_key(insert_by_key(s, e)),
    decreases s.len(),
{
    if s.len() > 0 && bytes_lt(e.0, s.last().0) {
        let t = s.drop_last();
        lemma_insert_sorted(t, e);
        lemma_insert_contents(t, e);
        let it = insert_by_key(t, e);
        let r = insert_by_key(s, e);
        assert forall|i: int, j: int| 0 <= i < j < r.len() implies !bytes_lt(#[trigger] r[j].0, #[trigger] r[i].0) by {
            if j == r.len() - 1 {
                assert(it.contains(r[i]));
                if r[i] == e {
                    lemma_bytes_lt_asymmetric(e.0, s.last().0);
                } else {
                    let k = choose|k: int| 0 <= k < t.len() && t[k] == r[i];
                    assert(s[k] == r[i]);
                }
            } else {
                assert(r[i] == it[i] && r[j] == it[j]);
            }
        }
    } else if s.len() > 0 {
        let r = s.push(e);
        assert forall|i: int, j: int| 0 <= i < j < r.len() implies !bytes_lt(#[trigger] r[j].0, #[trigger] r[i].0) by {
            if j == r.len() - 1 && i < s.len() - 1 {
                lemma_bytes_lt_total(e.0, s.last().0);
                lemma_bytes_lt_total(s[i].0, s.last().0);
                lemma_bytes_lt_transitive(e.0, s[i].0, s.last().0);
                assert(!bytes_lt(s[s.len() - 1].0, s[i].0));
                if bytes_lt(e.0, s[i].0) {
                    if s[i].0 == s.last().0 {
                    } else {
                        assert(bytes_lt(s[i].0, s.last().0));
                    }
                }
            }
        }
    }
}

pub proof fn lemma_sort_contents<V>(s: Seq<(Seq<u8>, V)>)
    ensures
        sort_by_key(s).len() == s.len(),
        forall|x: (Seq<u8>, V)| #[trigger] sort_by_key(s).contains(x) <==> s.contains(x),
        sorted_by_key(sort_by_key(s)),
    decreases s.len(),
{
    if s.len() > 0 {
        let t = s.drop_last();
        lemma_sort_contents(t);
        lemma_insert_contents(sort_by_key(t), s.last());
        lemma_insert_sorted(sort_by_key(t), s.last());
        assert forall|x: (Seq<u8>, V)| #[trigger] sort_by_key(s).contains(x) <==> s.contains(x) by {
            if s.contains(x) && x != s.last() {
                let i = choose|i: int| 0 <= i < s.len() && s[i] == x;
                assert(t[i] == x);
            }
            if t.contains(x) {
                let i = choose|i: int| 0 <= i < t.len() && t[i] == x;
                assert(s[i] == x);
            }
            assert(s[s.len() - 1] == s.last());
        }
    }
}

/// A sorted sequence with distinct keys is strictly sorted.
pub proof fn lemma_sorted_distinct_strict<V>(s: Seq<(Seq<u8>, V)>)
    requires
        sorted_by_key(s),
        distinct_by_key(s),
    ensures
        strictly_sorted_by_key(s),
{
    assert forall|i: int, j: int| 0 <= i < j < s.len() implies bytes_lt(#[trigger] s[i].0, #[trigger] s[j].0) by {
        lemma_bytes_lt_total(s[i].0, s[j].0);
    }
}

/// Sorting keeps distinct keys distinct.
pub proof fn lemma_sort_distinct<V>(s: Seq<(Seq<u8>, V)>)
    requires
        distinct_by_key(s),
    ensures
        distinct_by_key(sort_by_key(s)),
        strictly_sorted_by_key(sort_by_key(s)),
    decreases s.len(),
{
    lemma_sort_contents(s);
    if s.len() > 0 {
        let t = s.drop_last();
        assert(distinct_by_key(t));
        lemma_sort_distinct(t);
        lemma_sort_contents(t);
        let st = sort_by_key(t);
        let e = s.last();
        lemma_insert_contents(st, e);
        let r = sort_by_key(s);
        assert forall|i: int, j: int| 0 <= i < j < r.len() implies #[trigger] r[i].0 != #[trigger] r[j].0 by {
            assert(r.contains(r[i]) && r.contains(r[j]));
            if r[i] == e || r[j] == e {
                let other = if r[i] == e { r[j] } else { r[i] };
                if other != e {
                    assert(st.contains(other));
                    assert(t.contains(other));
                    let k = choose|k: int| 0 <= k < t.len() && t[k] == other;
                    assert(s[k] == other);
                    assert(s[s.len() - 1] == e);
                } else {
                    // the same entry twice: only possible if it occurs twice in st or once
                    // in st and once as e, both excluded
                    if st.contains(e) {
                        let k = choose|k: int| 0 <= k < st.len() && st[k] == e;
                        assert(t.contains(e));
                        let m = choose|m: int| 0 <= m < t.len() && t[m] == e;
                        assert(s[m] == e && s[s.len() - 1] == e);
                    } else {
                        lemma_insert_position_unique(st, e, i, j);
                    }
                }
            } else {
                lemma_insert_without(st, e, i, j);
            }
        }
        lemma_sorted_distinct_strict(r);
    } else {
        lemma_sorted_distinct_strict(sort_by_key(s));
    }
}

/// In an insertion, entries other than the inserted one keep their relative order.
proof fn lemma_insert_without<V>(s: Seq<(Seq<u8>, V)>, e: (Seq<u8>, V), i: int, j: int)
    requires
        distinct_by_key(s),
        0 <= i < j < insert_by_key(s, e).len(),
        insert_by_key(s, e)[i] != e,
        insert_by_key(s, e)[j] != e,
    ensures
        insert_by_key(s, e)[i].0 != insert_by_key(s, e)[j].0,
    decreases s.len(),
{
    lemma_insert_contents(s, e);
    if s.len() > 0 && bytes_lt(e.0, s.last().0) {
        let r = insert_by_key(s, e);
        let t = s.drop_last();
        lemma_insert_contents(t, e);
        if j == r.len() - 1 {
            assert(insert_by_key(t, e).contains(r[i]));
            let k = choose|k: int| 0 <= k < t.len() && t[k] == r[i];
            assert(s[k] == r[i]);
        } else {
            lemma_insert_without(t, e, i, j);
        }
    } else if s.len() > 0 {
    }
}

/// The inserted entry occurs once when it was absent before.
proof fn lemma_insert_position_unique<V>(s: Seq<(Seq<u8>, V)>, e: (Seq<u8>, V), i: int, j: int)
    requires
        !s.contains(e),
        0 <= i < j < insert_by_key(s, e).len(),
    ensures
        !(insert_by_key(s, e)[i] == e && insert_by_key(s, e)[j] == e),
    decreases s.len(),
{
    lemma_insert_contents(s, e);
    if s.len() > 0 && bytes_lt(e.0, s.last().0) {
        let r = insert_by_key(s, e);
        let t = s.drop_last();
        assert(!t.contains(e)) by {
            if t.contains(e) {
                let k = choose|k: int| 0 <= k < t.len() && t[k] == e;
                assert(s[k] == e);
            }
        }
        if j == r.len() - 1 {
            assert(s[s.len() - 1] == r[j]);
        } else {
            lemma_insert_position_unique(t, e, i, j);
        }
    } else if s.len() > 0 {
        if j == s.len() {
            assert(s[i] == insert_by_key(s, e)[i]);
        } else {
            assert(s[i] == insert_by_key(s, e)[i]);
        }
    }
}

/// Sorting a sorted sequence changes nothing.
pub proof fn lemma_sort_sorted_identity<V>(s: Seq<(Seq<u8>, V)>)
    requires
        sorted_by_key(s),
    ensures
        sort_by_key(s) == s,
    decreases s.len(),
{
    if s.len() > 0 {
        let t = s.drop_last();
        lemma_sort_sorted_identity(t);
        if t.len() > 0 {
            assert(!bytes_lt(s[s.len() - 1].0, s[s.len() - 2].0));
        }
        assert(t.push(s.last()) =~= s);
    }
}

/// Two strictly sorted sequences with the same entries are equal.
pub proof fn lemma_strictly_sorted_unique<V>(s: Seq<(Seq<u8>, V)>, t: Seq<(Seq<u8>, V)>)
    requires
        strictly_sorted_by_key(s),
        strictly_sorted_by_key(t),
        forall|x: (Seq<u8>, V)| s.contains(x) <==> t.contains(x),
    ensures
        s == t,
    decreases s.len() + t.len(),
{
    if s.len() == 0 {
        if t.len() > 0 {
            assert(t.contains(t[0]));
        }
        assert(s =~= t);
    } else if t.len() == 0 {
        assert(s.contains(s[0]));
    } else {
        assert(s.contains(s[0]) && t.contains(t[0]));
        let j = choose|j: int| 0 <= j < t.len() && t[j] == s[0];
        let i = choose|i: int| 0 <= i < s.len() && s[i] == t[0];
        if j > 0 {
            if i > 0 {
                lemma_bytes_lt_asymmetric(s[0].0, s[i].0);
            } else {
                lemma_bytes_lt_irreflexive(t[0].0);
            }
        }
        assert(s[0] == t[0]);
        let s1 = s.drop_first();
        let t1 = t.drop_first();
        assert forall|x: (Seq<u8>, V)| s1.contains(x) <==> t1.contains(x) by {
            if s1.contains(x) {
                let k = choose|k: int| 0 <= k < s1.len() && s1[k] == x;
                assert(s[k + 1] == x);
                assert(bytes_lt(s[0].0, s[k + 1].0));
                lemma_bytes_lt_irreflexive(x.0);
                assert(t.contains(x));
                let m = choose|m: int| 0 <= m < t.len() && t[m] == x;
                assert(m != 0);
                assert(t1[m - 1] == x);
            }
            if t1.contains(x) {
                let k = choose|k: int| 0 <= k < t1.len() && t1[k] == x;
                assert(t[k + 1] == x);
                assert(bytes_lt(t[0].0, t[k + 1].0));
                lemma_bytes_lt_irreflexive(x.0);
                assert(s.contains(x));
                let m = choose|m: int| 0 <= m < s.len() && s[m] == x;
                assert(m != 0);
                assert(s1[m - 1] == x);
            }
        }
        lemma_strictly_sorted_unique(s1, t1);
        assert(s =~= seq![s[0]] + s1);
        assert(t =~= seq![t[0]] + t1);
    }
}

} // verus!
