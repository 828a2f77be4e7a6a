//! The deterministic order in which entries are written: a stable sort by
//! byte-wise comparison of sort keys.

use vstd::prelude::*;

verus! {

/// `a <= b` in byte-wise lexicographic order.
pub open spec fn lex_le(a: Seq<u8>, b: Seq<u8>) -> bool
    decreases a.len(),
{
    if a.len() == 0 {
        true
    } else if b.len() == 0 {
        false
    } else if a[0] != b[0] {
        a[0] < b[0]
    } else {
        lex_le(a.drop_first(), b.drop_first())
    }
}

/// The sorted index list `t` with index `i` put after every index whose key
/// is not greater than `keys[i]`.
pub open spec fn insert_index(keys: Seq<Seq<u8>>, t: Seq<int>, i: int) -> Seq<int>
    decreases t.len(),
{
    if t.len() == 0 {
        seq![i]
    } else if lex_le(keys[t.last()], keys[i]) {
        t.push(i)
    } else {
        insert_index(keys, t.drop_last(), i).push(t.last())
    }
}

/// The indices `0..n` ordered stably by their keys.
pub open spec fn stable_order(keys: Seq<Seq<u8>>, n: int) -> Seq<int>
    decreases n,
{
    if n <= 0 {
        Seq::empty()
    } else {
        insert_index(keys, stable_order(keys, n - 1), n - 1)
    }
}

/// Adjacent indices of `t` have non-decreasing keys.
pub open spec fn ordered_by(keys: Seq<Seq<u8>>, t: Seq<int>) -> bool {
    forall|q: int| 0 <= q < t.len() - 1 ==> lex_le(keys[#[trigger] t[q]], keys[t[q + 1]])
}

pub proof fn lemma_lex_total(a: Seq<u8>, b: Seq<u8>)
    ensures
        lex_le(a, b) || lex_le(b, a),
    decreases a.len(),
{
    if a.len() > 0 && b.len() > 0 && a[0] == b[0] {
        lemma_lex_total(a.drop_first(), b.drop_first());
    }
}

pub proof fn lemma_lex_antisym(a: Seq<u8>, b: Seq<u8>)
    requires
        lex_le(a, b),
        lex_le(b, a),
    ensures
        a == b,
    decreases a.len(),
{
    if a.len() > 0 {
        lemma_lex_antisym(a.drop_first(), b.drop_first());
        assert(a =~= seq![a[0]] + a.drop_first());
        assert(b =~= seq![b[0]] + b.drop_first());
    } else {
        assert(b.len() == 0);
        assert(a =~= b);
    }
}

proof fn lemma_insert_at(keys: Seq<Seq<u8>>, t: Seq<int>, i: int, pos: int)
    requires
        0 <= pos <= t.len(),
        forall|q: int| 0 <= q < t.len() ==> 0 <= #[trigger] t[q] < keys.len(),
        0 <= i < keys.len(),
        forall|q: int| pos <= q < t.len() ==> !lex_le(keys[#[trigger] t[q]], keys[i]),
        pos > 0 ==> lex_le(keys[t[pos - 1]], keys[i]),
    ensures
        insert_index(keys, t, i) == t.subrange(0, pos).push(i) + t.subrange(pos, t.len() as int),
    decreases t.len(),
{
    if t.len() == 0 {
        assert(seq![i] =~= t.subrange(0, pos).push(i) + t.subrange(pos, t.len() as int));
    } else if pos == t.len() {
        assert(t.push(i) =~= t.subrange(0, pos).push(i) + t.subrange(pos, t.len() as int));
    } else {
        let u = t.drop_last();
        lemma_insert_at(keys, u, i, pos);
        assert(insert_index(keys, u, i).push(t.last()) =~= t.subrange(0, pos).push(i) + t.subrange(
            pos,
            t.len() as int,
        ));
    }
}

#[verifier::rlimit(40)]
proof fn lemma_insert_ordered(keys: Seq<Seq<u8>>, t: Seq<int>, i: int)
    requires
        ordered_by(keys, t),
    ensures
        ordered_by(keys, insert_index(keys, t, i)),
        insert_index(keys, t, i).to_multiset() == t.to_multiset().insert(i),
        insert_index(keys, t, i).len() == t.len() + 1,
        forall|x: int| #[trigger] insert_index(keys, t, i).contains(x) <==> t.contains(x) || x == i,
        t.no_duplicates() && !t.contains(i) ==> insert_index(keys, t, i).no_duplicates(),
        t.len() > 0 ==> {
            let r = insert_index(keys, t, i);
            r.last() == i || r.last() == t.last()
        },
    decreases t.len(),
{
    broadcast use vstd::seq_lib::group_to_multiset_ensures;

    let r = insert_index(keys, t, i);
    if t.len() == 0 {
        assert(r =~= Seq::<int>::empty().push(i));
        assert forall|x: int| #[trigger] r.contains(x) <==> t.contains(x) || x == i by {
            if x == i {
                assert(r[0] == i);
            }
        }
    } else if lex_le(keys[t.last()], keys[i]) {
        assert forall|q: int| 0 <= q < r.len() - 1 implies lex_le(keys[#[trigger] r[q]], keys[r[q + 1]]) by {
            if q < t.len() - 1 {
                assert(r[q] == t[q] && r[q + 1] == t[q + 1]);
            }
        }
        assert forall|x: int| #[trigger] r.contains(x) <==> t.contains(x) || x == i by {
            if t.contains(x) {
                let w = choose|w: int| 0 <= w < t.len() && t[w] == x;
                assert(r[w] == x);
            }
            if x == i {
                assert(r[t.len() as int] == i);
            }
        }
    } else {
        let u = t.drop_last();
        assert(ordered_by(keys, u)) by {
            assert forall|q: int| 0 <= q < u.len() - 1 implies lex_le(keys[#[trigger] u[q]], keys[u[q + 1]]) by {
                assert(u[q] == t[q] && u[q + 1] == t[q + 1]);
            }
        }
        lemma_insert_ordered(keys, u, i);
        let s = insert_index(keys, u, i);
        lemma_lex_total(keys[t.last()], keys[i]);
        if u.len() > 0 {
            assert(lex_le(keys[u.last()], keys[t.last()])) by {
                assert(t[t.len() - 2] == u.last());
            }
        }
        assert forall|q: int| 0 <= q < r.len() - 1 implies lex_le(keys[#[trigger] r[q]], keys[r[q + 1]]) by {
            if q < s.len() - 1 {
                assert(r[q] == s[q] && r[q + 1] == s[q + 1]);
            } else {
                assert(r[q] == s.last());
            }
        }
        assert(t =~= u.push(t.last()));
        assert forall|x: int| #[trigger] r.contains(x) <==> t.contains(x) || x == i by {
            if s.contains(x) {
                let w = choose|w: int| 0 <= w < s.len() && s[w] == x;
                assert(r[w] == x);
            }
            if r.contains(x) {
                let w = choose|w: int| 0 <= w < r.len() && r[w] == x;
                if w < s.len() {
                    assert(s[w] == x);
                }
            }
            if u.contains(x) {
                let w = choose|w: int| 0 <= w < u.len() && u[w] == x;
                assert(t[w] == x);
            }
            if t.contains(x) {
                let w = choose|w: int| 0 <= w < t.len() && t[w] == x;
                if w < u.len() {
                    assert(u[w] == x);
                }
            }
            if x == t.last() {
                assert(r[s.len() as int] == x);
            }
        }
        if t.no_duplicates() && !t.contains(i) {
            assert(u.no_duplicates()) by {
                assert forall|a: int, b: int| 0 <= a < u.len() && 0 <= b < u.len() && a != b implies u[a] != u[b] by {
                    assert(u[a] == t[a] && u[b] == t[b]);
                }
            }
            assert(!u.contains(i)) by {
                if u.contains(i) {
                    let w = choose|w: int| 0 <= w < u.len() && u[w] == i;
                    assert(t[w] == i);
                }
            }
            assert(!s.contains(t.last())) by {
                if u.contains(t.last()) {
                    let w = choose|w: int| 0 <= w < u.len() && u[w] == t.last();
                    assert(t[w] == t.last());
                }
                assert(t.contains(t.last()));
            }
            assert forall|a: int, b: int| 0 <= a < r.len() && 0 <= b < r.len() && a != b implies r[a] != r[b] by {
                if a < s.len() && b < s.len() {
                    assert(r[a] == s[a] && r[b] == s[b]);
                } else if a < s.len() {
                    assert(r[a] == s[a]);
                    assert(s.contains(r[a]));
                } else if b < s.len() {
                    assert(r[b] == s[b]);
                    assert(s.contains(r[b]));
                }
            }
        }
    }
}

/// The stable order is ordered by the keys and holds each of `0..n` once.
pub proof fn lemma_stable_order(keys: Seq<Seq<u8>>, n: int)
    requires
        0 <= n,
    ensures
        ordered_by(keys, stable_order(keys, n)),
        stable_order(keys, n).len() == n,
        stable_order(keys, n).to_multiset() =~= Seq::new(n as nat, |j: int| j).to_multiset(),
        stable_order(keys, n).no_duplicates(),
        forall|x: int| #[trigger] stable_order(keys, n).contains(x) <==> 0 <= x < n,
        forall|q: int| 0 <= q < n ==> 0 <= #[trigger] stable_order(keys, n)[q] < n,
    decreases n,
{
    broadcast use vstd::seq_lib::group_to_multiset_ensures;

    if n == 0 {
        assert(Seq::new(0, |j: int| j) =~= Seq::<int>::empty());
    } else {
        lemma_stable_order(keys, n - 1);
        lemma_insert_ordered(keys, stable_order(keys, n - 1), n - 1);
        assert(Seq::new(n as nat, |j: int| j) =~= Seq::new((n - 1) as nat, |j: int| j).push(n - 1));
    }
    let o = stable_order(keys, n);
    assert forall|q: int| 0 <= q < n implies 0 <= #[trigger] o[q] < n by {
        assert(o.contains(o[q]));
    }
}

/// Whether `a <= b` byte-wise.
pub fn lex_le_exec(a: &[u8], b: &[u8]) -> (r: bool)
    ensures
        r == lex_le(a@, b@),
{
    let mut i: usize = 0;
    assert(a@.subrange(0, a@.len() as int) =~= a@);
    assert(b@.subrange(0, b@.len() as int) =~= b@);
    while i < a.len()
        invariant
            0 <= i <= a@.len(),
            i <= b@.len(),
            lex_le(a@, b@) == lex_le(a@.subrange(i as int, a@.len() as int), b@.subrange(i as int, b@.len() as int)),
        decreases a@.len() - i,
    {
        let ghost sa = a@.subrange(i as int, a@.len() as int);
        let ghost sb = b@.subrange(i as int, b@.len() as int);
        if i == b.len() {
            return false;
        }
        if a[i] != b[i] {
            return a[i] < b[i];
        }
        assert(sa.drop_first() =~= a@.subrange(i + 1, a@.len() as int));
        assert(sb.drop_first() =~= b@.subrange(i + 1, b@.len() as int));
        i = i + 1;
    }
    true
}

/// The indices of `keys` in stable ascending order of the keys.
pub fn sort_order(keys: &Vec<Vec<u8>>) -> (r: Vec<usize>)
    ensures
        r@.map_values(|j: usize| j as int) == stable_order(keys@.map_values(|k: Vec<u8>| k@), keys@.len() as int),
{
    let ghost kv = keys@.map_values(|k: Vec<u8>| k@);
    let mut t: Vec<usize> = Vec::new();
    let mut i: usize = 0;
    while i < keys.len()
        invariant
            0 <= i <= keys@.len(),
            kv == keys@.map_values(|k: Vec<u8>| k@),
            t@.map_values(|j: usize| j as int) == stable_order(kv, i as int),
            forall|q: int| 0 <= q < t@.len() ==> #[trigger] t@[q] < i,
        decreases keys@.len() - i,
    {
        let ghost tv = t@.map_values(|j: usize| j as int);
        let mut pos: usize = t.len();
        while pos > 0 && !lex_le_exec(keys[t[pos - 1]].as_slice(), keys[i].as_slice())
            invariant
                0 <= pos <= t@.len(),
                i < keys@.len(),
                kv == keys@.map_values(|k: Vec<u8>| k@),
                tv == t@.map_values(|j: usize| j as int),
                forall|q: int| 0 <= q < t@.len() ==> #[trigger] t@[q] < i,
                forall|q: int| pos <= q < t@.len() ==> !lex_le(kv[#[trigger] tv[q]], kv[i as int]),
            decreases pos,
        {
            assert(kv[tv[pos - 1]] == keys@[t@[pos - 1] as int]@);
            pos = pos - 1;
        }
        proof {
            lemma_insert_at(kv, tv, i as int, pos as int);
        }
        t.insert(pos, i);
        proof {
            assert(t@.map_values(|j: usize| j as int) =~= tv.subrange(0, pos as int).push(i as int) + tv.subrange(pos as int, tv.len() as int));
        }
        i = i + 1;
    }
    t
}


pub proof fn lemma_lex_trans(a: Seq<u8>, b: Seq<u8>, c: Seq<u8>)
    requires
        lex_le(a, b),
        lex_le(b, c),
    ensures
        lex_le(a, c),
    decreases a.len(),
{
    if a.len() > 0 && b.len() > 0 && c.len() > 0 && a[0] == b[0] && b[0] == c[0] {
        lemma_lex_trans(a.drop_first(), b.drop_first(), c.drop_first());
    }
}

/// The keys of `t`, in the order of `t`.
pub open spec fn keys_in(keys: Seq<Seq<u8>>, t: Seq<int>) -> Seq<Seq<u8>> {
    t.map_values(|j: int| keys[j])
}

/// Adjacent elements are in non-decreasing order.
pub open spec fn sorted_seq(s: Seq<Seq<u8>>) -> bool {
    forall|q: int| 0 <= q < s.len() - 1 ==> lex_le(#[trigger] s[q], s[q + 1])
}

proof fn lemma_insert_mapped<T>(keys: Seq<Seq<u8>>, t: Seq<int>, i: int, vals: Seq<T>)
    ensures
        insert_index(keys, t, i).map_values(|j: int| vals[j]).to_multiset() == t.map_values(|j: int| vals[j]).to_multiset().insert(vals[i]),
    decreases t.len(),
{
    broadcast use vstd::seq_lib::group_to_multiset_ensures;

    if t.len() == 0 {
        assert(insert_index(keys, t, i).map_values(|j: int| vals[j]) =~= Seq::<T>::empty().push(vals[i]));
        assert(t.map_values(|j: int| vals[j]) =~= Seq::<T>::empty());
    } else if lex_le(keys[t.last()], keys[i]) {
        assert(t.push(i).map_values(|j: int| vals[j]) =~= t.map_values(|j: int| vals[j]).push(vals[i]));
    } else {
        let u = t.drop_last();
        let s = insert_index(keys, u, i);
        lemma_insert_mapped(keys, u, i, vals);
        assert(s.push(t.last()).map_values(|j: int| vals[j]) =~= s.map_values(|j: int| vals[j]).push(vals[t.last()]));
        assert(t.map_values(|j: int| vals[j]) =~= u.map_values(|j: int| vals[j]).push(vals[t.last()]));
        assert(s.map_values(|j: int| vals[j]).to_multiset().insert(vals[t.last()]) =~= u.map_values(|j: int| vals[j]).to_multiset().insert(vals[t.last()]).insert(vals[i]));
    }
}

/// Taking `vals` in stable order keeps the multiset of `vals[0..n]`.
pub proof fn lemma_stable_mapped<T>(keys: Seq<Seq<u8>>, n: int, vals: Seq<T>)
    requires
        0 <= n <= vals.len(),
    ensures
        stable_order(keys, n).map_values(|j: int| vals[j]).to_multiset() == vals.subrange(0, n).to_multiset(),
    decreases n,
{
    broadcast use vstd::seq_lib::group_to_multiset_ensures;

    if n == 0 {
        assert(vals.subrange(0, 0) =~= Seq::<T>::empty());
        assert(stable_order(keys, n).map_values(|j: int| vals[j]) =~= Seq::<T>::empty());
    } else {
        lemma_stable_mapped(keys, n - 1, vals);
        lemma_insert_mapped(keys, stable_order(keys, n - 1), n - 1, vals);
        assert(vals.subrange(0, n) =~= vals.subrange(0, n - 1).push(vals[n - 1]));
    }
}

/// The keys in stable order are the keys of `0..n`, sorted.
pub proof fn lemma_sorted_keys(keys: Seq<Seq<u8>>, n: int)
    requires
        0 <= n <= keys.len(),
    ensures
        keys_in(keys, stable_order(keys, n)).to_multiset() == keys.subrange(0, n).to_multiset(),
        sorted_seq(keys_in(keys, stable_order(keys, n))),
    decreases n,
{
    broadcast use vstd::seq_lib::group_to_multiset_ensures;

    lemma_stable_order(keys, n);
    let o = stable_order(keys, n);
    let s = keys_in(keys, o);
    assert forall|q: int| 0 <= q < s.len() - 1 implies lex_le(#[trigger] s[q], s[q + 1]) by {
        assert(lex_le(keys[o[q]], keys[o[q + 1]]));
    }
    if n == 0 {
        assert(keys.subrange(0, 0) =~= Seq::<Seq<u8>>::empty());
        assert(s =~= Seq::<Seq<u8>>::empty());
    } else {
        lemma_sorted_keys(keys, n - 1);
        lemma_stable_mapped(keys, n, keys);
    }
}

pub proof fn lemma_sorted_global(s: Seq<Seq<u8>>, i: int, j: int)
    requires
        sorted_seq(s),
        0 <= i <= j < s.len(),
    ensures
        lex_le(s[i], s[j]),
    decreases j - i,
{
    if i == j {
        lemma_lex_total(s[i], s[i]);
    } else {
        lemma_sorted_global(s, i, j - 1);
        assert(lex_le(s[j - 1], s[j]));
        lemma_lex_trans(s[i], s[j - 1], s[j]);
    }
}

/// A sorted sequence is determined by its multiset of elements.
#[verifier::rlimit(40)]
pub proof fn lemma_sorted_unique(a: Seq<Seq<u8>>, b: Seq<Seq<u8>>)
    requires
        sorted_seq(a),
        sorted_seq(b),
        a.to_multiset() == b.to_multiset(),
    ensures
        a == b,
    decreases a.len(),
{
    broadcast use vstd::seq_lib::group_to_multiset_ensures;

    a.to_multiset_ensures();
    b.to_multiset_ensures();
    assert(a.len() == b.len());
    if a.len() == 0 {
        assert(a =~= b);
    } else {
        let x = a.last();
        let y = b.last();
        assert(a.contains(x));
        assert(b.to_multiset().count(x) > 0);
        assert(b.contains(x));
        let k = choose|k: int| 0 <= k < b.len() && b[k] == x;
        lemma_sorted_global(b, k, b.len() - 1);
        assert(b.contains(y));
        assert(a.to_multiset().count(y) > 0);
        assert(a.contains(y));
        let l = choose|l: int| 0 <= l < a.len() && a[l] == y;
        lemma_sorted_global(a, l, a.len() - 1);
        lemma_lex_antisym(x, y);
        let a2 = a.drop_last();
        let b2 = b.drop_last();
        assert(a =~= a2.push(x));
        assert(b =~= b2.push(x));
        assert(a2.to_multiset() =~= b2.to_multiset()) by {
            assert(a2.push(x).to_multiset() == a2.to_multiset().insert(x));
            assert(b2.push(x).to_multiset() == b2.to_multiset().insert(x));
            assert forall|z: Seq<u8>| a2.to_multiset().count(z) == b2.to_multiset().count(z) by {
                assert(a2.to_multiset().insert(x).count(z) == b2.to_multiset().insert(x).count(z));
            }
        }
        assert(sorted_seq(a2)) by {
            assert forall|q: int| 0 <= q < a2.len() - 1 implies lex_le(#[trigger] a2[q], a2[q + 1]) by {
                assert(lex_le(a[q], a[q + 1]));
            }
        }
        assert(sorted_seq(b2)) by {
            assert forall|q: int| 0 <= q < b2.len() - 1 implies lex_le(#[trigger] b2[q], b2[q + 1]) by {
                assert(lex_le(b[q], b[q + 1]));
            }
        }
        lemma_sorted_unique(a2, b2);
    }
}

} // verus!
