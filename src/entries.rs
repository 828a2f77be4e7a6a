//! The entry table: an insertion-ordered map from file name to content,
//! kept in a `linked_hash_map::LinkedHashMap`.

use linked_hash_map::LinkedHashMap;
use vstd::prelude::*;

verus! {

#[verifier::external_type_specification]
#[verifier::external_body]
#[verifier::reject_recursive_types(K)]
#[verifier::reject_recursive_types(V)]
#[verifier::reject_recursive_types(S)]
pub struct ExLinkedHashMap<K, V, S>(LinkedHashMap<K, V, S>);

/// What an entry table holds, in iteration order: (name, content) pairs.
pub uninterp spec fn entry_list(m: LinkedHashMap<String, Vec<u8>>) -> Seq<(Seq<char>, Seq<u8>)>;

/// `s` without the pairs whose name is `k`.
pub open spec fn without_key(s: Seq<(Seq<char>, Seq<u8>)>, k: Seq<char>) -> Seq<(Seq<char>, Seq<u8>)> {
    s.filter(|e: (Seq<char>, Seq<u8>)| e.0 != k)
}

/// The table after inserting `(k, v)`: an existing pair of that name goes,
/// and the new pair comes last.
pub open spec fn with_entry(s: Seq<(Seq<char>, Seq<u8>)>, k: Seq<char>, v: Seq<u8>) -> Seq<(Seq<char>, Seq<u8>)> {
    without_key(s, k).push((k, v))
}

/// The content of the first pair named `k`.
pub open spec fn lookup(s: Seq<(Seq<char>, Seq<u8>)>, k: Seq<char>) -> Option<Seq<u8>>
    decreases s.len(),
{
    if s.len() == 0 {
        None
    } else if s[0].0 == k {
        Some(s[0].1)
    } else {
        lookup(s.drop_first(), k)
    }
}

/// No two pairs share a key.
pub open spec fn keys_unique<K, V>(s: Seq<(K, V)>) -> bool {
    forall|i: int, j: int| 0 <= i < s.len() && 0 <= j < s.len() && i != j ==> #[trigger] s[i].0 != #[trigger] s[j].0
}

pub proof fn lemma_without_key(s: Seq<(Seq<char>, Seq<u8>)>, k: Seq<char>)
    ensures
        forall|x: (Seq<char>, Seq<u8>)| #[trigger] without_key(s, k).contains(x) <==> s.contains(x) && x.0 != k,
        keys_unique(s) ==> keys_unique(without_key(s, k)),
    decreases s.len(),
{
    reveal(Seq::filter);
    if s.len() > 0 {
        let u = s.drop_last();
        lemma_without_key(u, k);
        let fu = without_key(u, k);
        let fs = without_key(s, k);
        assert(s =~= u.push(s.last()));
        assert(if s.last().0 != k { fs == fu.push(s.last()) } else { fs == fu });
        assert forall|x: (Seq<char>, Seq<u8>)| #[trigger] fs.contains(x) <==> s.contains(x) && x.0 != k by {
            if s.contains(x) && x.0 != k {
                let w = choose|w: int| 0 <= w < s.len() && s[w] == x;
                if w < u.len() {
                    assert(u[w] == x);
                    assert(fu.contains(x));
                    let z = choose|z: int| 0 <= z < fu.len() && fu[z] == x;
                    assert(fs[z] == x);
                } else {
                    assert(fs[fs.len() - 1] == x);
                }
            }
            if fs.contains(x) {
                let z = choose|z: int| 0 <= z < fs.len() && fs[z] == x;
                if z < fu.len() {
                    assert(fu[z] == x);
                    assert(fu.contains(x));
                    assert(u.contains(x));
                    let w = choose|w: int| 0 <= w < u.len() && u[w] == x;
                    assert(s[w] == x);
                } else {
                    assert(x == s.last());
                    assert(s[s.len() - 1] == x);
                }
            }
        }
        if keys_unique(s) {
            assert(keys_unique(u)) by {
                assert forall|i: int, j: int| 0 <= i < u.len() && 0 <= j < u.len() && i != j implies #[trigger] u[i].0 != #[trigger] u[j].0 by {
                    assert(u[i] == s[i] && u[j] == s[j]);
                }
            }
            if s.last().0 != k {
                assert forall|i: int, j: int| 0 <= i < fs.len() && 0 <= j < fs.len() && i != j implies #[trigger] fs[i].0 != #[trigger] fs[j].0 by {
                    if i < fu.len() && j < fu.len() {
                        assert(fs[i] == fu[i] && fs[j] == fu[j]);
                    } else {
                        let o = if i < fu.len() { i } else { j };
                        assert(fs[o] == fu[o]);
                        assert(fu.contains(fu[o]));
                        assert(u.contains(fu[o]));
                        let w = choose|w: int| 0 <= w < u.len() && u[w] == fu[o];
                        assert(s[w] == u[w]);
                        assert(s[s.len() - 1] == s.last());
                    }
                }
            }
        }
    }
}

/// Inserting keeps names unique; the new pair replaces any of its name.
pub proof fn lemma_with_entry(s: Seq<(Seq<char>, Seq<u8>)>, k: Seq<char>, v: Seq<u8>)
    ensures
        forall|x: (Seq<char>, Seq<u8>)| #[trigger] with_entry(s, k, v).contains(x) <==> (s.contains(x) && x.0 != k) || x == (k, v),
        keys_unique(s) ==> keys_unique(with_entry(s, k, v)),
{
    lemma_without_key(s, k);
    let f = without_key(s, k);
    let t = with_entry(s, k, v);
    assert forall|x: (Seq<char>, Seq<u8>)| #[trigger] t.contains(x) <==> (s.contains(x) && x.0 != k) || x == (k, v) by {
        if f.contains(x) {
            let z = choose|z: int| 0 <= z < f.len() && f[z] == x;
            assert(t[z] == x);
        }
        if x == (k, v) {
            assert(t[t.len() - 1] == x);
        }
        if t.contains(x) {
            let z = choose|z: int| 0 <= z < t.len() && t[z] == x;
            if z < f.len() {
                assert(f[z] == x);
            }
        }
    }
    if keys_unique(s) {
        assert forall|i: int, j: int| 0 <= i < t.len() && 0 <= j < t.len() && i != j implies #[trigger] t[i].0 != #[trigger] t[j].0 by {
            if i < f.len() && j < f.len() {
                assert(t[i] == f[i] && t[j] == f[j]);
            } else {
                let o = if i < f.len() { i } else { j };
                assert(t[o] == f[o]);
                assert(f.contains(f[o]));
            }
        }
    }
}

/// With unique names, `lookup` finds exactly the pair of that name.
pub proof fn lemma_lookup(s: Seq<(Seq<char>, Seq<u8>)>, k: Seq<char>)
    requires
        keys_unique(s),
    ensures
        forall|v: Seq<u8>| lookup(s, k) == Some(v) <==> #[trigger] s.contains((k, v)),
    decreases s.len(),
{
    if s.len() > 0 {
        let d = s.drop_first();
        assert(keys_unique(d)) by {
            assert forall|i: int, j: int| 0 <= i < d.len() && 0 <= j < d.len() && i != j implies #[trigger] d[i].0 != #[trigger] d[j].0 by {
                assert(d[i] == s[i + 1] && d[j] == s[j + 1]);
            }
        }
        lemma_lookup(d, k);
        assert forall|v: Seq<u8>| lookup(s, k) == Some(v) <==> #[trigger] s.contains((k, v)) by {
            if s.contains((k, v)) {
                let w = choose|w: int| 0 <= w < s.len() && s[w] == (k, v);
                if w > 0 {
                    assert(d[w - 1] == s[w]);
                    assert(d.contains((k, v)));
                    assert(s[0].0 != s[w].0);
                }
            }
            if d.contains((k, v)) {
                let w = choose|w: int| 0 <= w < d.len() && d[w] == (k, v);
                assert(s[w + 1] == d[w]);
            }
            if s[0].0 == k && lookup(s, k) == Some(v) {
                assert(s[0] == (k, v));
            }
        }
    }
}

/// With unique names, inserting `(k, v)` makes `k` find `v` and leaves
/// every other name as it was.
pub proof fn lemma_lookup_with_entry(s: Seq<(Seq<char>, Seq<u8>)>, k: Seq<char>, v: Seq<u8>, k2: Seq<char>)
    requires
        keys_unique(s),
    ensures
        lookup(with_entry(s, k, v), k) == Some(v),
        k2 != k ==> lookup(with_entry(s, k, v), k2) == lookup(s, k2),
{
    lemma_with_entry(s, k, v);
    let t = with_entry(s, k, v);
    lemma_lookup(t, k);
    assert(t.contains((k, v)));
    if k2 != k {
        lemma_lookup(t, k2);
        lemma_lookup(s, k2);
        assert forall|w: Seq<u8>| t.contains((k2, w)) <==> s.contains((k2, w)) by {}
        match lookup(s, k2) {
            Some(w) => {
                assert(s.contains((k2, w)));
            },
            None => {
                if let Some(w) = lookup(t, k2) {
                    assert(t.contains((k2, w)));
                    assert(s.contains((k2, w)));
                }
            },
        }
    }
}

/// Relies on LinkedHashMap::new: the table starts empty.
#[verifier::external_body]
pub(crate) fn new_table() -> (r: LinkedHashMap<String, Vec<u8>>)
    ensures
        entry_list(r) == Seq::<(Seq<char>, Seq<u8>)>::empty(),
{
    LinkedHashMap::new()
}

/// Relies on LinkedHashMap::insert: the value under `k` is replaced and
/// the entry moves to the end of the iteration order (detach, then attach).
#[verifier::external_body]
pub(crate) fn insert_entry(m: &mut LinkedHashMap<String, Vec<u8>>, k: String, v: Vec<u8>)
    ensures
        entry_list(*final(m)) == with_entry(entry_list(*old(m)), k@, v@),
{
    m.insert(k, v);
}

/// Relies on LinkedHashMap::get: the value stored under `k`, if any.
#[verifier::external_body]
pub(crate) fn get_entry<'a>(m: &'a LinkedHashMap<String, Vec<u8>>, k: &String) -> (r: Option<&'a Vec<u8>>)
    ensures
        match r {
            Some(v) => lookup(entry_list(*m), k@) == Some(v@),
            None => lookup(entry_list(*m), k@) is None,
        },
{
    m.get(k)
}

/// Relies on LinkedHashMap::iter: every pair, in insertion order.
#[verifier::external_body]
pub(crate) fn table_pairs(m: &LinkedHashMap<String, Vec<u8>>) -> (r: Vec<(String, Vec<u8>)>)
    ensures
        r@.len() == entry_list(*m).len(),
        forall|i: int|
            0 <= i < r@.len() ==> (#[trigger] r@[i]).0@ == entry_list(*m)[i].0 && r@[i].1@
                == entry_list(*m)[i].1,
{
    m.iter().map(|(k, v)| (k.clone(), v.clone())).collect()
}

} // verus!
