//! Ordering of entities by string keys: the tuple order Rust gives
//! `(String, String, ...)`, a stable insertion sort over entity indices,
//! and grouping of a sorted list into runs of equal labels.
use vstd::prelude::*;
use crate::text::{chars_lt, chars_less, chars_equal, lemma_chars_lt_transitive, lemma_chars_lt_asymmetric};

verus! {

/// Component-wise lexicographic order on keys made of strings (the order of
/// Rust tuples of `String`s of one arity).
pub open spec fn keys_lt(a: Seq<Seq<char>>, b: Seq<Seq<char>>) -> bool
    decreases a.len(),
{
    if a.len() == 0 {
        b.len() > 0
    } else if b.len() == 0 {
        false
    } else if a[0] != b[0] {
        chars_lt(a[0], b[0])
    } else {
        keys_lt(a.drop_first(), b.drop_first())
    }
}

pub proof fn lemma_keys_lt_irreflexive(a: Seq<Seq<char>>)
    ensures
        !keys_lt(a, a),
    decreases a.len(),
{
    if a.len() > 0 {
        lemma_keys_lt_irreflexive(a.drop_first());
    }
}

pub proof fn lemma_keys_lt_transitive(a: Seq<Seq<char>>, b: Seq<Seq<char>>, c: Seq<Seq<char>>)
    requires
        keys_lt(a, b),
        keys_lt(b, c),
    ensures
        keys_lt(a, c),
    decreases a.len(),
{
    if a.len() > 0 && b.len() > 0 && c.len() > 0 {
        if a[0] == b[0] && b[0] == c[0] {
            lemma_keys_lt_transitive(a.drop_first(), b.drop_first(), c.drop_first());
        } else if a[0] == b[0] {
        } else if b[0] == c[0] {
        } else {
            lemma_chars_lt_transitive(a[0], b[0], c[0]);
            if a[0] == c[0] {
                lemma_chars_lt_asymmetric(a[0], b[0]);
            }
        }
    }
}

/// The characters of each component of a key.
pub open spec fn key_view(k: Seq<Vec<char>>) -> Seq<Seq<char>> {
    k.map_values(|v: Vec<char>| v@)
}

/// The keys, one per entity index.
pub open spec fn keys_view(ks: Seq<Vec<Vec<char>>>) -> Seq<Seq<Seq<char>>> {
    ks.map_values(|k: Vec<Vec<char>>| key_view(k@))
}

pub fn keys_less(a: &Vec<Vec<char>>, b: &Vec<Vec<char>>) -> (r: bool)
    ensures
        r == keys_lt(key_view(a@), key_view(b@)),
{
    let mut i: usize = 0;
    assert(key_view(a@).skip(0) =~= key_view(a@));
    assert(key_view(b@).skip(0) =~= key_view(b@));
    while i < a.len() && i < b.len() && chars_equal(&a[i], &b[i])
        invariant
            i <= a.len(),
            i <= b.len(),
            keys_lt(key_view(a@), key_view(b@)) == keys_lt(key_view(a@).skip(i as int), key_view(b@).skip(i as int)),
        decreases a.len() - i,
    {
        proof {
            assert(key_view(a@).skip(i as int).drop_first() =~= key_view(a@).skip(i + 1));
            assert(key_view(b@).skip(i as int).drop_first() =~= key_view(b@).skip(i + 1));
        }
        i = i + 1;
    }
    if i == a.len() {
        i < b.len()
    } else if i == b.len() {
        false
    } else {
        chars_less(&a[i], &b[i])
    }
}

/// `x` inserted into `s` before the first element whose key is greater.
pub open spec fn insert_by_key(s: Seq<usize>, x: usize, ks: Seq<Seq<Seq<char>>>) -> Seq<usize>
    decreases s.len(),
{
    if s.len() == 0 {
        seq![x]
    } else if keys_lt(ks[x as int], ks[s[0] as int]) {
        seq![x] + s
    } else {
        seq![s[0]] + insert_by_key(s.drop_first(), x, ks)
    }
}

/// Stable insertion sort of the indices `s` by their keys `ks`.
pub open spec fn sort_by_keys(s: Seq<usize>, ks: Seq<Seq<Seq<char>>>) -> Seq<usize>
    decreases s.len(),
{
    if s.len() == 0 {
        s
    } else {
        insert_by_key(sort_by_keys(s.drop_last(), ks), s.last(), ks)
    }
}

proof fn lemma_insert_at(s: Seq<usize>, x: usize, ks: Seq<Seq<Seq<char>>>, p: int)
    requires
        0 <= p <= s.len(),
        forall|j: int| 0 <= j < p ==> !keys_lt(ks[x as int], #[trigger] ks[s[j] as int]),
        p == s.len() || keys_lt(ks[x as int], ks[s[p] as int]),
    ensures
        insert_by_key(s, x, ks) == s.take(p) + seq![x] + s.skip(p),
    decreases p,
{
    if p == 0 {
        if s.len() == 0 {
            assert(s.take(0) + seq![x] + s.skip(0) =~= seq![x]);
        } else {
            assert(s.take(0) + seq![x] + s.skip(0) =~= seq![x] + s);
        }
    } else {
        let t = s.drop_first();
        assert forall|j: int| 0 <= j < p - 1 implies !keys_lt(ks[x as int], #[trigger] ks[t[j] as int]) by {
            assert(t[j] == s[j + 1]);
        }
        if p < s.len() {
            assert(t[p - 1] == s[p]);
        }
        lemma_insert_at(t, x, ks, p - 1);
        assert(seq![s[0]] + (t.take(p - 1) + seq![x] + t.skip(p - 1)) =~= s.take(p) + seq![x] + s.skip(p));
    }
}

/// `s` is in non-decreasing key order.
pub open spec fn sorted_by(s: Seq<usize>, ks: Seq<Seq<Seq<char>>>) -> bool {
    forall|i: int, j: int| 0 <= i < j < s.len() ==> !keys_lt(#[trigger] ks[s[j] as int], #[trigger] ks[s[i] as int])
}

proof fn lemma_insert_sorted(s: Seq<usize>, x: usize, ks: Seq<Seq<Seq<char>>>)
    requires
        sorted_by(s, ks),
    ensures
        sorted_by(insert_by_key(s, x, ks), ks),
        insert_by_key(s, x, ks).to_multiset() =~= s.to_multiset().insert(x),
        forall|k: int| 0 <= k < insert_by_key(s, x, ks).len() ==> (#[trigger] insert_by_key(s, x, ks)[k] == x || s.contains(insert_by_key(s, x, ks)[k])),
    decreases s.len(),
{
    broadcast use vstd::seq_lib::group_to_multiset_ensures;
    broadcast use vstd::multiset::group_multiset_axioms;
    let r = insert_by_key(s, x, ks);
    if s.len() == 0 {
        assert(r =~= Seq::<usize>::empty().push(x));
        assert(Seq::<usize>::empty().to_multiset() =~= s.to_multiset());
    } else if keys_lt(ks[x as int], ks[s[0] as int]) {
        assert(r == seq![x] + s);
        vstd::seq_lib::lemma_multiset_commutative(seq![x], s);
        assert(seq![x] =~= Seq::<usize>::empty().push(x));
        assert forall|i: int, j: int| 0 <= i < j < r.len() implies !keys_lt(#[trigger] ks[r[j] as int], #[trigger] ks[r[i] as int]) by {
            if i == 0 {
                assert(r[j] == s[j - 1]);
                if j - 1 > 0 {
                    assert(!keys_lt(ks[s[j - 1] as int], ks[s[0] as int]));
                }
                if keys_lt(ks[s[j - 1] as int], ks[x as int]) {
                    lemma_keys_lt_transitive(ks[s[j - 1] as int], ks[x as int], ks[s[0] as int]);
                    if j - 1 == 0 {
                        lemma_keys_lt_irreflexive(ks[s[0] as int]);
                    }
                }
            } else {
                assert(r[i] == s[i - 1] && r[j] == s[j - 1]);
            }
        }
        assert forall|k: int| 0 <= k < r.len() implies (#[trigger] r[k] == x || s.contains(r[k])) by {
            if k > 0 {
                assert(r[k] == s[k - 1]);
            }
        }
    } else {
        let t = s.drop_first();
        assert forall|i: int, j: int| 0 <= i < j < t.len() implies !keys_lt(#[trigger] ks[t[j] as int], #[trigger] ks[t[i] as int]) by {
            assert(t[i] == s[i + 1] && t[j] == s[j + 1]);
        }
        lemma_insert_sorted(t, x, ks);
        let u = insert_by_key(t, x, ks);
        assert(r == seq![s[0]] + u);
        vstd::seq_lib::lemma_multiset_commutative(seq![s[0]], u);
        vstd::seq_lib::lemma_multiset_commutative(seq![s[0]], t);
        assert(s =~= seq![s[0]] + t);
        assert forall|k: int| 0 <= k < r.len() implies (#[trigger] r[k] == x || s.contains(r[k])) by {
            if k > 0 {
                assert(r[k] == u[k - 1]);
                if u[k - 1] != x {
                    assert(t.contains(u[k - 1]));
                    let q = choose|q: int| 0 <= q < t.len() && t[q] == u[k - 1];
                    assert(s[q + 1] == u[k - 1]);
                }
            } else {
                assert(s[0] == r[0]);
            }
        }
        assert forall|i: int, j: int| 0 <= i < j < r.len() implies !keys_lt(#[trigger] ks[r[j] as int], #[trigger] ks[r[i] as int]) by {
            if i == 0 {
                assert(r[j] == u[j - 1]);
                if u[j - 1] == x {
                } else {
                    assert(t.contains(u[j - 1]));
                    let q = choose|q: int| 0 <= q < t.len() && t[q] == u[j - 1];
                    assert(s[q + 1] == u[j - 1]);
                    assert(!keys_lt(ks[s[q + 1] as int], ks[s[0] as int]));
                }
            } else {
                assert(r[i] == u[i - 1] && r[j] == u[j - 1]);
            }
        }
    }
}

/// The stable sort orders its indices by key, and only reorders them: it
/// keeps each index as often as it was given.
pub proof fn lemma_sort_sorts(s: Seq<usize>, ks: Seq<Seq<Seq<char>>>)
    ensures
        sorted_by(sort_by_keys(s, ks), ks),
        sort_by_keys(s, ks).to_multiset() =~= s.to_multiset(),
    decreases s.len(),
{
    broadcast use vstd::seq_lib::group_to_multiset_ensures;
    if s.len() > 0 {
        lemma_sort_sorts(s.drop_last(), ks);
        lemma_insert_sorted(sort_by_keys(s.drop_last(), ks), s.last(), ks);
        assert(s =~= s.drop_last().push(s.last()));
    } else {
        assert(sort_by_keys(s, ks) =~= s);
    }
}

/// Sorts the indices `items` by `keys` (stable insertion sort).
pub fn sort_indices(keys: &Vec<Vec<Vec<char>>>, items: &Vec<usize>) -> (r: Vec<usize>)
    requires
        forall|i: int| 0 <= i < items@.len() ==> #[trigger] items@[i] < keys@.len(),
    ensures
        r@ == sort_by_keys(items@, keys_view(keys@)),
{
    let ghost ks = keys_view(keys@);
    let mut out: Vec<usize> = Vec::new();
    let mut i: usize = 0;
    while i < items.len()
        invariant
            i <= items.len(),
            ks == keys_view(keys@),
            forall|k: int| 0 <= k < items@.len() ==> #[trigger] items@[k] < keys@.len(),
            out@ == sort_by_keys(items@.take(i as int), ks),
            forall|k: int| 0 <= k < out@.len() ==> #[trigger] out@[k] < keys@.len(),
        decreases items.len() - i,
    {
        let x = items[i];
        let mut p: usize = 0;
        while p < out.len() && !keys_less(&keys[x], &keys[out[p]])
            invariant
                p <= out.len(),
                x < keys@.len(),
                ks == keys_view(keys@),
                forall|k: int| 0 <= k < out@.len() ==> #[trigger] out@[k] < keys@.len(),
                forall|j: int| 0 <= j < p ==> !keys_lt(ks[x as int], #[trigger] ks[out@[j] as int]),
            decreases out.len() - p,
        {
            p = p + 1;
        }
        proof {
            lemma_insert_at(out@, x, ks, p as int);
            let t = items@.take(i + 1);
            assert(t.drop_last() =~= items@.take(i as int));
            assert(t.last() == x);
        }
        out.insert(p, x);
        proof {
            assert(out@ =~= sort_by_keys(items@.take(i + 1), ks).take(p as int) + seq![x] + sort_by_keys(items@.take(i + 1), ks).skip(p as int + 1)) by {
                let old_out = sort_by_keys(items@.take(i as int), ks);
                assert(sort_by_keys(items@.take(i + 1), ks) == old_out.take(p as int) + seq![x] + old_out.skip(p as int));
            }
            assert(out@ =~= sort_by_keys(items@.take(i + 1), ks));
        }
        i = i + 1;
    }
    assert(items@.take(items.len() as int) =~= items@);
    out
}

/// Splits `s` into maximal runs of consecutive indices with equal labels.
pub open spec fn runs(s: Seq<usize>, labels: Seq<Seq<char>>) -> Seq<Seq<usize>>
    decreases s.len(),
{
    if s.len() == 0 {
        Seq::empty()
    } else {
        let g = runs(s.drop_last(), labels);
        if g.len() > 0 && g.last().len() > 0 && labels[g.last().last() as int] == labels[s.last() as int] {
            g.update(g.len() - 1, g.last().push(s.last()))
        } else {
            g.push(seq![s.last()])
        }
    }
}

pub open spec fn runs_view(g: Seq<Vec<usize>>) -> Seq<Seq<usize>> {
    g.map_values(|v: Vec<usize>| v@)
}

pub open spec fn labels_view(l: Seq<Vec<char>>) -> Seq<Seq<char>> {
    l.map_values(|v: Vec<char>| v@)
}

proof fn lemma_runs_nonempty(s: Seq<usize>, labels: Seq<Seq<char>>)
    ensures
        forall|k: int| 0 <= k < runs(s, labels).len() ==> #[trigger] runs(s, labels)[k].len() > 0,
        s.len() > 0 ==> runs(s, labels).len() > 0,
    decreases s.len(),
{
    if s.len() > 0 {
        lemma_runs_nonempty(s.drop_last(), labels);
        let g = runs(s.drop_last(), labels);
        let r = runs(s, labels);
        assert forall|k: int| 0 <= k < r.len() implies #[trigger] r[k].len() > 0 by {
            if k < g.len() {
                assert(g[k].len() > 0);
            }
        }
    }
}

/// Groups the indices `s` into runs of equal `labels`.
pub fn group_runs(s: &Vec<usize>, labels: &Vec<Vec<char>>) -> (r: Vec<Vec<usize>>)
    requires
        forall|i: int| 0 <= i < s@.len() ==> #[trigger] s@[i] < labels@.len(),
    ensures
        runs_view(r@) == runs(s@, labels_view(labels@)),
{
    let ghost ls = labels_view(labels@);
    let mut out: Vec<Vec<usize>> = Vec::new();
    let mut i: usize = 0;
    while i < s.len()
        invariant
            i <= s.len(),
            ls == labels_view(labels@),
            forall|k: int| 0 <= k < s@.len() ==> #[trigger] s@[k] < labels@.len(),
            runs_view(out@) == runs(s@.take(i as int), ls),
            forall|k: int, m: int| 0 <= k < out@.len() && 0 <= m < out@[k]@.len() ==> #[trigger] out@[k]@[m] < labels@.len(),
        decreases s.len() - i,
    {
        let x = s[i];
        proof {
            lemma_runs_nonempty(s@.take(i as int), ls);
            let t = s@.take(i + 1);
            assert(t.drop_last() =~= s@.take(i as int));
            assert(t.last() == x);
        }
        let n = out.len();
        let mut joined = false;
        if n > 0 {
            let m = out[n - 1].len();
            if m > 0 && chars_equal(&labels[out[n - 1][m - 1]], &labels[x]) {
                let mut last = out.pop().unwrap();
                last.push(x);
                out.push(last);
                joined = true;
            }
        }
        if !joined {
            let mut fresh: Vec<usize> = Vec::new();
            fresh.push(x);
            out.push(fresh);
        }
        proof {
            assert(runs_view(out@) =~= runs(s@.take(i + 1), ls));
        }
        i = i + 1;
    }
    assert(s@.take(s.len() as int) =~= s@);
    out
}

} // verus!
