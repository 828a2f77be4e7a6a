//! Reading back what was written: the encoding of each part of an archive
//! decodes to that part, and a whole archive decodes to the same entries and
//! metadata.

use crate::codec::{
    cstring_at, cstring_bytes, header_at, header_bytes, le_bytes, le_value, lemma_le_round_trip,
    nul_index, HeaderView, PboError, };
use crate::digest::sha1_of;
use crate::entries::{keys_unique, with_entry, without_key};
use crate::format::{
    archive_bytes, body_bytes, contents_at, contents_bytes, entry_header, entry_keys, ext_header,
    headers_at, headers_bytes, lemma_meta_index, meta_at, meta_bytes, meta_index, meta_insert,
    other_pairs_bytes, pair_bytes, parse_archive, prefix_key, terminator, write_order,
};
use crate::order::{lemma_stable_order, stable_order};
use crate::pbo::PBO;
use vstd::prelude::*;
use vstd::utf8::{encode_utf8, encode_utf8_decode_utf8, encode_utf8_valid_utf8};

verus! {

/// The UTF-8 form of `s` holds no NUL byte.
pub open spec fn no_nul(s: Seq<char>) -> bool {
    forall|k: int| 0 <= k < encode_utf8(s).len() ==> encode_utf8(s)[k] != 0
}

/// Pairs as a map, later pairs winning.
pub open spec fn pairs_map<K, V>(s: Seq<(K, V)>) -> Map<K, V>
    decreases s.len(),
{
    if s.len() == 0 {
        Map::empty()
    } else {
        pairs_map(s.drop_last()).insert(s.last().0, s.last().1)
    }
}

proof fn lemma_pairs_map<K, V>(s: Seq<(K, V)>)
    requires
        keys_unique(s),
    ensures
        forall|k: K| #[trigger] pairs_map(s).contains_key(k) <==> exists|i: int| 0 <= i < s.len() && s[i].0 == k,
        forall|i: int| 0 <= i < s.len() ==> pairs_map(s)[#[trigger] s[i].0] == s[i].1,
    decreases s.len(),
{
    if s.len() > 0 {
        let u = s.drop_last();
        assert(keys_unique(u)) by {
            assert forall|i: int, j: int| 0 <= i < u.len() && 0 <= j < u.len() && i != j implies #[trigger] u[i].0 != #[trigger] u[j].0 by {
                assert(u[i] == s[i] && u[j] == s[j]);
            }
        }
        lemma_pairs_map(u);
        assert forall|k: K| #[trigger] pairs_map(s).contains_key(k) <==> exists|i: int| 0 <= i < s.len() && s[i].0 == k by {
            if pairs_map(s).contains_key(k) && k != s.last().0 {
                assert(pairs_map(u).contains_key(k));
                let i = choose|i: int| 0 <= i < u.len() && u[i].0 == k;
                assert(s[i] == u[i]);
            }
            if exists|i: int| 0 <= i < s.len() && s[i].0 == k {
                let i = choose|i: int| 0 <= i < s.len() && s[i].0 == k;
                if i < u.len() {
                    assert(u[i] == s[i]);
                    assert(pairs_map(u).contains_key(k));
                }
            }
        }
        assert forall|i: int| 0 <= i < s.len() implies pairs_map(s)[#[trigger] s[i].0] == s[i].1 by {
            if i < u.len() {
                assert(u[i] == s[i]);
                assert(s[i].0 != s[s.len() - 1].0);
            }
        }
    }
}

/// Two key-unique pair lists holding the same pairs give the same map.
proof fn lemma_same_pairs_same_map<K, V>(a: Seq<(K, V)>, b: Seq<(K, V)>)
    requires
        keys_unique(a),
        keys_unique(b),
        forall|i: int| 0 <= i < a.len() ==> #[trigger] b.contains(a[i]),
        forall|j: int| 0 <= j < b.len() ==> #[trigger] a.contains(b[j]),
    ensures
        pairs_map(a) == pairs_map(b),
{
    lemma_pairs_map(a);
    lemma_pairs_map(b);
    assert forall|k: K| #[trigger] pairs_map(a).contains_key(k) implies pairs_map(b).contains_key(k) && pairs_map(a)[k] == pairs_map(b)[k] by {
        let i = choose|i: int| 0 <= i < a.len() && a[i].0 == k;
        assert(b.contains(a[i]));
        let j = choose|j: int| 0 <= j < b.len() && b[j] == a[i];
        assert(pairs_map(b)[b[j].0] == b[j].1);
        assert(pairs_map(a)[a[i].0] == a[i].1);
    }
    assert forall|k: K| #[trigger] pairs_map(b).contains_key(k) implies pairs_map(a).contains_key(k) by {
        let j = choose|j: int| 0 <= j < b.len() && b[j].0 == k;
        assert(a.contains(b[j]));
        let i = choose|i: int| 0 <= i < a.len() && a[i] == b[j];
        assert(a[i].0 == k);
    }
    assert(pairs_map(a) =~= pairs_map(b));
}

proof fn lemma_nul_scan(b: Seq<u8>, pos: int, end: int)
    requires
        0 <= pos <= end < b.len(),
        b[end] == 0,
        forall|k: int| pos <= k < end ==> b[k] != 0,
    ensures
        nul_index(b, pos) == Some(end),
    decreases end - pos,
{
    if pos < end {
        lemma_nul_scan(b, pos + 1, end);
    }
}

/// A stored string decodes to itself.
pub proof fn lemma_cstring_round_trip(b: Seq<u8>, pos: int, s: Seq<char>)
    requires
        0 <= pos,
        pos + cstring_bytes(s).len() <= b.len(),
        b.subrange(pos, pos + cstring_bytes(s).len()) == cstring_bytes(s),
        no_nul(s),
    ensures
        cstring_at(b, pos) == Ok::<(Seq<char>, int), PboError>((s, pos + cstring_bytes(s).len())),
{
    let nb = encode_utf8(s);
    let n = nb.len() as int;
    let cb = cstring_bytes(s);
    assert forall|k: int| pos <= k < pos + n implies b[k] != 0 by {
        assert(b[k] == b.subrange(pos, pos + cb.len())[k - pos]);
        assert(cb[k - pos] == nb[k - pos]);
    }
    assert(b[pos + n] == b.subrange(pos, pos + cb.len())[n]);
    lemma_nul_scan(b, pos, pos + n);
    assert(b.subrange(pos, pos + n) =~= nb) by {
        assert forall|k: int| 0 <= k < n implies b.subrange(pos, pos + n)[k] == nb[k] by {
            assert(b[pos + k] == b.subrange(pos, pos + cb.len())[k]);
        }
    }
    encode_utf8_valid_utf8(s);
    encode_utf8_decode_utf8(s);
}

/// A header decodes to itself, wherever it stands, for any name whose
/// UTF-8 form holds no NUL byte.
pub proof fn lemma_header_round_trip(b: Seq<u8>, pos: int, h: HeaderView)
    requires
        0 <= pos,
        pos + header_bytes(h).len() <= b.len(),
        b.subrange(pos, pos + header_bytes(h).len()) == header_bytes(h),
        no_nul(h.filename),
    ensures
        header_at(b, pos) == Ok::<(HeaderView, int), PboError>((h, pos + header_bytes(h).len())),
{
    let hb = header_bytes(h);
    let cb = cstring_bytes(h.filename);
    let c = cb.len() as int;
    assert(b.subrange(pos, pos + c) =~= cb) by {
        assert forall|k: int| 0 <= k < c implies b.subrange(pos, pos + c)[k] == cb[k] by {
            assert(b[pos + k] == b.subrange(pos, pos + hb.len())[k]);
            assert(hb[k] == cb[k]);
        }
    }
    lemma_cstring_round_trip(b, pos, h.filename);
    let p = pos + c;
    let fields = seq![h.packing_method, h.original_size, h.reserved, h.timestamp, h.data_size];
    assert forall|f: int| 0 <= f < 5 implies le_value(b, p + 4 * f) == #[trigger] fields[f] by {
        let x = fields[f];
        assert forall|t: int| 0 <= t < 4 implies b[p + 4 * f + t] == le_bytes(x)[t] by {
            assert(b[p + 4 * f + t] == b.subrange(pos, pos + hb.len())[c + 4 * f + t]);
        }
        lemma_le_round_trip(x);
    }
    assert(le_value(b, p) == fields[0]);
    assert(le_value(b, p + 4) == fields[1]);
    assert(le_value(b, p + 8) == fields[2]);
    assert(le_value(b, p + 12) == fields[3]);
    assert(le_value(b, p + 16) == fields[4]);
}


proof fn lemma_split(b: Seq<u8>, pos: int, x: Seq<u8>, y: Seq<u8>)
    requires
        0 <= pos,
        pos + x.len() + y.len() <= b.len(),
        b.subrange(pos, pos + x.len() + y.len()) == x + y,
    ensures
        b.subrange(pos, pos + x.len()) == x,
        b.subrange(pos + x.len(), pos + x.len() + y.len()) == y,
{
    let whole = b.subrange(pos, pos + x.len() + y.len());
    assert forall|k: int| 0 <= k < x.len() implies b.subrange(pos, pos + x.len())[k] == x[k] by {
        assert(whole[k] == (x + y)[k]);
    }
    assert forall|k: int| 0 <= k < y.len() implies b.subrange(pos + x.len(), pos + x.len() + y.len())[k] == y[k] by {
        assert(whole[x.len() + k] == (x + y)[x.len() + k]);
    }
    assert(b.subrange(pos, pos + x.len()) =~= x);
    assert(b.subrange(pos + x.len(), pos + x.len() + y.len()) =~= y);
}

proof fn lemma_headers_front(s: Seq<(Seq<char>, Seq<u8>)>)
    requires
        s.len() > 0,
    ensures
        headers_bytes(s) == header_bytes(entry_header(s[0])) + headers_bytes(s.drop_first()),
    decreases s.len(),
{
    if s.len() == 1 {
        assert(s.drop_last() =~= Seq::<(Seq<char>, Seq<u8>)>::empty());
        assert(s.drop_first() =~= Seq::<(Seq<char>, Seq<u8>)>::empty());
        assert(headers_bytes(s) =~= header_bytes(entry_header(s[0])) + headers_bytes(s.drop_first()));
    } else {
        let u = s.drop_last();
        lemma_headers_front(u);
        assert(u[0] == s[0]);
        assert(s.drop_first().drop_last() =~= u.drop_first());
        assert(s.drop_first().last() == s.last());
        assert(headers_bytes(s) =~= header_bytes(entry_header(s[0])) + headers_bytes(s.drop_first()));
    }
}

proof fn lemma_contents_front(s: Seq<(Seq<char>, Seq<u8>)>)
    requires
        s.len() > 0,
    ensures
        contents_bytes(s) == s[0].1 + contents_bytes(s.drop_first()),
    decreases s.len(),
{
    if s.len() == 1 {
        assert(s.drop_last() =~= Seq::<(Seq<char>, Seq<u8>)>::empty());
        assert(s.drop_first() =~= Seq::<(Seq<char>, Seq<u8>)>::empty());
        assert(contents_bytes(s) =~= s[0].1 + contents_bytes(s.drop_first()));
    } else {
        let u = s.drop_last();
        lemma_contents_front(u);
        assert(u[0] == s[0]);
        assert(s.drop_first().drop_last() =~= u.drop_first());
        assert(s.drop_first().last() == s.last());
        assert(contents_bytes(s) =~= s[0].1 + contents_bytes(s.drop_first()));
    }
}

/// The pairs of `m` other than `prefix`, in order.
pub open spec fn others(m: Seq<(Seq<char>, Seq<char>)>) -> Seq<(Seq<char>, Seq<char>)>
    decreases m.len(),
{
    if m.len() == 0 {
        Seq::empty()
    } else if m[0].0 == prefix_key() {
        others(m.drop_first())
    } else {
        seq![m[0]] + others(m.drop_first())
    }
}

proof fn lemma_other_pairs_front(m: Seq<(Seq<char>, Seq<char>)>)
    requires
        m.len() > 0,
    ensures
        other_pairs_bytes(m) == (if m[0].0 == prefix_key() {
            Seq::empty()
        } else {
            pair_bytes(m[0].0, m[0].1)
        }) + other_pairs_bytes(m.drop_first()),
    decreases m.len(),
{
    let first = if m[0].0 == prefix_key() {
        Seq::<u8>::empty()
    } else {
        pair_bytes(m[0].0, m[0].1)
    };
    if m.len() == 1 {
        assert(m.drop_last() =~= Seq::<(Seq<char>, Seq<char>)>::empty());
        assert(m.drop_first() =~= Seq::<(Seq<char>, Seq<char>)>::empty());
        assert(other_pairs_bytes(m) =~= first + other_pairs_bytes(m.drop_first()));
    } else {
        let u = m.drop_last();
        lemma_other_pairs_front(u);
        assert(u[0] == m[0]);
        assert(m.drop_first().drop_last() =~= u.drop_first());
        assert(m.drop_first().last() == m.last());
        assert(other_pairs_bytes(m) =~= first + other_pairs_bytes(m.drop_first()));
    }
}

#[verifier::rlimit(40)]
proof fn lemma_others(m: Seq<(Seq<char>, Seq<char>)>)
    ensures
        forall|j: int| 0 <= j < others(m).len() ==> #[trigger] m.contains(others(m)[j]) && others(m)[j].0 != prefix_key(),
        forall|i: int| 0 <= i < m.len() && m[i].0 != prefix_key() ==> #[trigger] others(m).contains(m[i]),
        keys_unique(m) ==> keys_unique(others(m)),
    decreases m.len(),
{
    if m.len() > 0 {
        let d = m.drop_first();
        lemma_others(d);
        let o = others(m);
        let od = others(d);
        assert forall|j: int| 0 <= j < o.len() implies #[trigger] m.contains(o[j]) && o[j].0 != prefix_key() by {
            if m[0].0 == prefix_key() || j > 0 {
                let jj = if m[0].0 == prefix_key() { j } else { j - 1 };
                assert(o[j] == od[jj]);
                assert(d.contains(od[jj]));
                let w = choose|w: int| 0 <= w < d.len() && d[w] == od[jj];
                assert(m[w + 1] == d[w]);
            } else {
                assert(o[j] == m[0]);
            }
        }
        assert forall|i: int| 0 <= i < m.len() && m[i].0 != prefix_key() implies #[trigger] o.contains(m[i]) by {
            if i == 0 {
                assert(o[0] == m[0]);
            } else {
                assert(d[i - 1] == m[i]);
                assert(od.contains(d[i - 1]));
                let w = choose|w: int| 0 <= w < od.len() && od[w] == d[i - 1];
                if m[0].0 == prefix_key() {
                    assert(o[w] == od[w]);
                } else {
                    assert(o[w + 1] == od[w]);
                }
            }
        }
        if keys_unique(m) {
            assert(keys_unique(d)) by {
                assert forall|i: int, j: int| 0 <= i < d.len() && 0 <= j < d.len() && i != j implies #[trigger] d[i].0 != #[trigger] d[j].0 by {
                    assert(d[i] == m[i + 1] && d[j] == m[j + 1]);
                }
            }
            if m[0].0 != prefix_key() {
                assert forall|i: int, j: int| 0 <= i < o.len() && 0 <= j < o.len() && i != j implies #[trigger] o[i].0 != #[trigger] o[j].0 by {
                    if i > 0 && j > 0 {
                        assert(o[i] == od[i - 1] && o[j] == od[j - 1]);
                    } else if i == 0 {
                        assert(o[j] == od[j - 1]);
                        assert(d.contains(od[j - 1]));
                        let w = choose|w: int| 0 <= w < d.len() && d[w] == od[j - 1];
                        assert(m[w + 1] == d[w]);
                    } else {
                        assert(o[i] == od[i - 1]);
                        assert(d.contains(od[i - 1]));
                        let w = choose|w: int| 0 <= w < d.len() && d[w] == od[i - 1];
                        assert(m[w + 1] == d[w]);
                    }
                }
            }
        }
    }
}

proof fn lemma_without_absent(s: Seq<(Seq<char>, Seq<u8>)>, k: Seq<char>)
    requires
        forall|i: int| 0 <= i < s.len() ==> #[trigger] s[i].0 != k,
    ensures
        without_key(s, k) == s,
    decreases s.len(),
{
    reveal(Seq::filter);
    if s.len() > 0 {
        let u = s.drop_last();
        assert forall|i: int| 0 <= i < u.len() implies #[trigger] u[i].0 != k by {
            assert(u[i] == s[i]);
        }
        lemma_without_absent(u, k);
        assert(s.last().0 != k);
        assert(u.push(s.last()) =~= s);
    }
}


/// Entry names that can be stored and read back.
pub open spec fn storable_names(s: Seq<(Seq<char>, Seq<u8>)>) -> bool {
    forall|i: int| 0 <= i < s.len() ==> (#[trigger] s[i]).0.len() > 0 && no_nul(s[i].0) && s[i].1.len() <= u32::MAX
}

proof fn lemma_empty_no_nul()
    ensures
        no_nul(Seq::<char>::empty()),
        encode_utf8(Seq::<char>::empty()) == Seq::<u8>::empty(),
{
    assert(encode_utf8(Seq::<char>::empty()) =~= Seq::<u8>::empty());
}

proof fn lemma_headers_parse(b: Seq<u8>, pos: int, m: Seq<(Seq<char>, Seq<char>)>, hs: Seq<HeaderView>, s: Seq<(Seq<char>, Seq<u8>)>)
    requires
        0 <= pos,
        pos + headers_bytes(s).len() + header_bytes(terminator()).len() <= b.len(),
        b.subrange(pos, pos + headers_bytes(s).len() + header_bytes(terminator()).len()) == headers_bytes(s) + header_bytes(terminator()),
        storable_names(s),
    ensures
        headers_at(b, pos, false, m, hs) == Ok::<_, PboError>(
            (m, hs + s.map_values(|p: (Seq<char>, Seq<u8>)| entry_header(p)), pos + headers_bytes(s).len() + header_bytes(terminator()).len()),
        ),
    decreases s.len(),
{
    let t = header_bytes(terminator());
    lemma_empty_no_nul();
    if s.len() == 0 {
        assert(headers_bytes(s) =~= Seq::<u8>::empty());
        assert(b.subrange(pos, pos + t.len()) =~= t);
        lemma_header_round_trip(b, pos, terminator());
        assert(hs + s.map_values(|p: (Seq<char>, Seq<u8>)| entry_header(p)) =~= hs);
    } else {
        lemma_headers_front(s);
        let h0 = header_bytes(entry_header(s[0]));
        let rest = headers_bytes(s.drop_first());
        assert(h0 + rest + t =~= h0 + (rest + t));
        lemma_split(b, pos, h0, rest + t);
        lemma_header_round_trip(b, pos, entry_header(s[0]));
        let d = s.drop_first();
        assert(storable_names(d)) by {
            assert forall|i: int| 0 <= i < d.len() implies (#[trigger] d[i]).0.len() > 0 && no_nul(d[i].0) && d[i].1.len() <= u32::MAX by {
                assert(d[i] == s[i + 1]);
            }
        }
        assert(s[0].0.len() > 0);
        let hs2 = hs.push(entry_header(s[0]));
        lemma_headers_parse(b, pos + h0.len(), m, hs2, d);
        assert(hs2 + d.map_values(|p: (Seq<char>, Seq<u8>)| entry_header(p)) =~= hs + s.map_values(|p: (Seq<char>, Seq<u8>)| entry_header(p)));
    }
}

#[verifier::rlimit(40)]
proof fn lemma_contents_parse(b: Seq<u8>, pos: int, s: Seq<(Seq<char>, Seq<u8>)>, acc: Seq<(Seq<char>, Seq<u8>)>)
    requires
        0 <= pos,
        pos + contents_bytes(s).len() <= b.len(),
        b.subrange(pos, pos + contents_bytes(s).len()) == contents_bytes(s),
        storable_names(s),
        keys_unique(s),
        forall|i: int, j: int| 0 <= i < s.len() && 0 <= j < acc.len() ==> #[trigger] s[i].0 != #[trigger] acc[j].0,
    ensures
        contents_at(b, pos, s.map_values(|p: (Seq<char>, Seq<u8>)| entry_header(p)), acc) == Ok::<_, PboError>(
            (acc + s, pos + contents_bytes(s).len()),
        ),
    decreases s.len(),
{
    let hs = s.map_values(|p: (Seq<char>, Seq<u8>)| entry_header(p));
    if s.len() == 0 {
        assert(acc + s =~= acc);
        assert(contents_bytes(s) =~= Seq::<u8>::empty());
    } else {
        lemma_contents_front(s);
        let c0 = s[0].1;
        let rest = contents_bytes(s.drop_first());
        lemma_split(b, pos, c0, rest);
        assert(s[0].1.len() <= u32::MAX);
        assert(hs[0].data_size == c0.len());
        assert forall|j: int| 0 <= j < acc.len() implies #[trigger] acc[j].0 != s[0].0 by {
            assert(s[0].0 != acc[j].0);
        }
        lemma_without_absent(acc, s[0].0);
        assert(with_entry(acc, s[0].0, c0) == acc.push(s[0]));
        let d = s.drop_first();
        let acc2 = acc.push(s[0]);
        assert(storable_names(d)) by {
            assert forall|i: int| 0 <= i < d.len() implies (#[trigger] d[i]).0.len() > 0 && no_nul(d[i].0) && d[i].1.len() <= u32::MAX by {
                assert(d[i] == s[i + 1]);
            }
        }
        assert(keys_unique(d)) by {
            assert forall|i: int, j: int| 0 <= i < d.len() && 0 <= j < d.len() && i != j implies #[trigger] d[i].0 != #[trigger] d[j].0 by {
                assert(d[i] == s[i + 1] && d[j] == s[j + 1]);
            }
        }
        assert forall|i: int, j: int| 0 <= i < d.len() && 0 <= j < acc2.len() implies #[trigger] d[i].0 != #[trigger] acc2[j].0 by {
            assert(d[i] == s[i + 1]);
            if j < acc.len() {
                assert(acc2[j] == acc[j]);
            } else {
                assert(acc2[j] == s[0]);
            }
        }
        assert(hs.drop_first() =~= d.map_values(|p: (Seq<char>, Seq<u8>)| entry_header(p)));
        assert(b.subrange(pos, pos + c0.len()) == c0);
        lemma_contents_parse(b, pos + c0.len(), d, acc2);
        assert(acc2 + d =~= acc + s);
    }
}

/// Metadata pairs that can be stored and read back.
pub open spec fn storable_meta(m: Seq<(Seq<char>, Seq<char>)>) -> bool {
    forall|i: int| 0 <= i < m.len() ==> (#[trigger] m[i]).0.len() > 0 && no_nul(m[i].0) && no_nul(m[i].1)
}

#[verifier::rlimit(40)]
proof fn lemma_meta_parse(b: Seq<u8>, pos: int, acc: Seq<(Seq<char>, Seq<char>)>, m: Seq<(Seq<char>, Seq<char>)>)
    requires
        0 <= pos,
        pos + other_pairs_bytes(m).len() + 1 <= b.len(),
        b.subrange(pos, pos + other_pairs_bytes(m).len() + 1) == other_pairs_bytes(m) + seq![0u8],
        storable_meta(m),
        keys_unique(m),
        forall|i: int, j: int| 0 <= i < m.len() && 0 <= j < acc.len() && m[i].0 != prefix_key() ==> #[trigger] m[i].0 != #[trigger] acc[j].0,
    ensures
        meta_at(b, pos, acc) == Ok::<_, PboError>((acc + others(m), pos + other_pairs_bytes(m).len() + 1)),
    decreases m.len(),
{
    lemma_empty_no_nul();
    if m.len() == 0 {
        assert(other_pairs_bytes(m) =~= Seq::<u8>::empty());
        assert(cstring_bytes(Seq::empty()) =~= seq![0u8]);
        assert(b.subrange(pos, pos + 1) =~= cstring_bytes(Seq::empty()));
        lemma_cstring_round_trip(b, pos, Seq::empty());
        assert(acc + others(m) =~= acc);
    } else {
        lemma_other_pairs_front(m);
        let d = m.drop_first();
        assert(storable_meta(d)) by {
            assert forall|i: int| 0 <= i < d.len() implies (#[trigger] d[i]).0.len() > 0 && no_nul(d[i].0) && no_nul(d[i].1) by {
                assert(d[i] == m[i + 1]);
            }
        }
        assert(keys_unique(d)) by {
            assert forall|i: int, j: int| 0 <= i < d.len() && 0 <= j < d.len() && i != j implies #[trigger] d[i].0 != #[trigger] d[j].0 by {
                assert(d[i] == m[i + 1] && d[j] == m[j + 1]);
            }
        }
        let rest = other_pairs_bytes(d);
        if m[0].0 == prefix_key() {
            assert(other_pairs_bytes(m) =~= rest);
            assert forall|i: int, j: int| 0 <= i < d.len() && 0 <= j < acc.len() && d[i].0 != prefix_key() implies #[trigger] d[i].0 != #[trigger] acc[j].0 by {
                assert(d[i] == m[i + 1]);
            }
            lemma_meta_parse(b, pos, acc, d);
        } else {
            let k = m[0].0;
            let v = m[0].1;
            let kb = cstring_bytes(k);
            let vb = cstring_bytes(v);
            assert(other_pairs_bytes(m) + seq![0u8] =~= kb + (vb + (rest + seq![0u8])));
            lemma_split(b, pos, kb, vb + (rest + seq![0u8]));
            lemma_cstring_round_trip(b, pos, k);
            lemma_split(b, pos + kb.len(), vb, rest + seq![0u8]);
            lemma_cstring_round_trip(b, pos + kb.len(), v);
            assert(m[0].0.len() > 0);
            assert forall|j: int| 0 <= j < acc.len() implies acc[j].0 != k by {
                assert(m[0].0 != acc[j].0);
            }
            lemma_meta_index(acc, k);
            assert(meta_index(acc, k) is None);
            assert(meta_insert(acc, k, v) == acc.push((k, v)));
            let acc2 = acc.push(m[0]);
            assert forall|i: int, j: int| 0 <= i < d.len() && 0 <= j < acc2.len() && d[i].0 != prefix_key() implies #[trigger] d[i].0 != #[trigger] acc2[j].0 by {
                assert(d[i] == m[i + 1]);
                if j < acc.len() {
                    assert(acc2[j] == acc[j]);
                } else {
                    assert(acc2[j] == m[0]);
                }
            }
            lemma_meta_parse(b, pos + kb.len() + vb.len(), acc2, d);
            assert(acc2 + others(d) =~= acc + others(m));
        }
    }
}


proof fn lemma_window(pre: Seq<u8>, x: Seq<u8>, post: Seq<u8>)
    ensures
        (pre + x + post).subrange(pre.len() as int, (pre.len() + x.len()) as int) == x,
{
    assert((pre + x + post).subrange(pre.len() as int, (pre.len() + x.len()) as int) =~= x);
}

/// Facts about the written order of an entry table with unique, storable
/// names: it holds the same pairs, with unique and storable names.
proof fn lemma_write_order_pairs(e: Seq<(Seq<char>, Seq<u8>)>)
    requires
        keys_unique(e),
        storable_names(e),
    ensures
        keys_unique(write_order(e)),
        storable_names(write_order(e)),
        forall|q: int| 0 <= q < write_order(e).len() ==> #[trigger] e.contains(write_order(e)[q]),
        forall|i: int| 0 <= i < e.len() ==> #[trigger] write_order(e).contains(e[i]),
{
    let ks = entry_keys(e);
    let o = stable_order(ks, e.len() as int);
    lemma_stable_order(ks, e.len() as int);
    let wo = write_order(e);
    assert forall|q: int| 0 <= q < wo.len() implies wo[q] == e[o[q]] && 0 <= o[q] < e.len() by {}
    assert forall|q: int| 0 <= q < wo.len() implies #[trigger] e.contains(wo[q]) by {
        assert(wo[q] == e[o[q]]);
    }
    assert forall|i: int| 0 <= i < e.len() implies #[trigger] wo.contains(e[i]) by {
        assert(o.contains(i));
        let q = choose|q: int| 0 <= q < o.len() && o[q] == i;
        assert(wo[q] == e[i]);
    }
    assert forall|a: int, c: int| 0 <= a < wo.len() && 0 <= c < wo.len() && a != c implies #[trigger] wo[a].0 != #[trigger] wo[c].0 by {
        assert(wo[a] == e[o[a]] && wo[c] == e[o[c]]);
        assert(o[a] != o[c]);
    }
    assert forall|q: int| 0 <= q < wo.len() implies (#[trigger] wo[q]).0.len() > 0 && no_nul(wo[q].0) && wo[q].1.len() <= u32::MAX by {
        assert(wo[q] == e[o[q]]);
    }
}

/// The metadata as read back: `prefix` first, then the other pairs.
pub open spec fn meta_read(m: Seq<(Seq<char>, Seq<char>)>) -> Seq<(Seq<char>, Seq<char>)> {
    match meta_index(m, prefix_key()) {
        Some(i) => seq![(prefix_key(), m[i].1)] + others(m),
        None => others(m),
    }
}

proof fn lemma_meta_block(b: Seq<u8>, pos: int, m: Seq<(Seq<char>, Seq<char>)>)
    requires
        0 <= pos,
        pos + meta_bytes(m).len() <= b.len(),
        b.subrange(pos, pos + meta_bytes(m).len()) == meta_bytes(m),
        keys_unique(m),
        storable_meta(m),
    ensures
        meta_at(b, pos, Seq::empty()) == Ok::<_, PboError>((meta_read(m), pos + meta_bytes(m).len())),
{
    lemma_meta_index(m, prefix_key());
    let op = other_pairs_bytes(m);
    let z = seq![0u8];
    match meta_index(m, prefix_key()) {
        Some(i) => {
            let v = m[i].1;
            let kb = cstring_bytes(prefix_key());
            let vb = cstring_bytes(v);
            assert(meta_bytes(m) =~= kb + (vb + (op + z)));
            lemma_split(b, pos, kb, vb + (op + z));
            lemma_cstring_round_trip(b, pos, prefix_key());
            lemma_split(b, pos + kb.len(), vb, op + z);
            lemma_cstring_round_trip(b, pos + kb.len(), v);
            assert(prefix_key().len() > 0);
            assert(meta_index(Seq::<(Seq<char>, Seq<char>)>::empty(), prefix_key()) is None);
            assert(meta_insert(Seq::empty(), prefix_key(), v) =~= seq![(prefix_key(), v)]);
            let acc = seq![(prefix_key(), v)];
            assert forall|a: int, j: int| 0 <= a < m.len() && 0 <= j < acc.len() && m[a].0 != prefix_key() implies #[trigger] m[a].0 != #[trigger] acc[j].0 by {}
            lemma_meta_parse(b, pos + kb.len() + vb.len(), acc, m);
        },
        None => {
            assert(meta_bytes(m) =~= op + z);
            let acc = Seq::<(Seq<char>, Seq<char>)>::empty();
            lemma_meta_parse(b, pos, acc, m);
            assert(acc + others(m) =~= meta_read(m));
        },
    }
}

proof fn lemma_meta_read(m: Seq<(Seq<char>, Seq<char>)>)
    requires
        keys_unique(m),
    ensures
        pairs_map(meta_read(m)) == pairs_map(m),
{
    lemma_meta_index(m, prefix_key());
    lemma_others(m);
    let mm = meta_read(m);
    let o = others(m);
    assert(keys_unique(o));
    match meta_index(m, prefix_key()) {
        Some(i) => {
            assert forall|a1: int, a2: int| 0 <= a1 < mm.len() && 0 <= a2 < mm.len() && a1 != a2 implies #[trigger] mm[a1].0 != #[trigger] mm[a2].0 by {
                if a1 > 0 && a2 > 0 {
                    assert(mm[a1] == o[a1 - 1] && mm[a2] == o[a2 - 1]);
                    assert(o[a1 - 1].0 != o[a2 - 1].0);
                } else if a1 == 0 {
                    assert(mm[a2] == o[a2 - 1]);
                    assert(m.contains(o[a2 - 1]));
                } else {
                    assert(mm[a1] == o[a1 - 1]);
                    assert(m.contains(o[a1 - 1]));
                }
            }
            assert forall|j: int| 0 <= j < mm.len() implies #[trigger] m.contains(mm[j]) by {
                if j == 0 {
                    assert(mm[0] == m[i]);
                } else {
                    assert(mm[j] == o[j - 1]);
                }
            }
            assert forall|j: int| 0 <= j < m.len() implies #[trigger] mm.contains(m[j]) by {
                if m[j].0 == prefix_key() {
                    assert(j == i);
                    assert(mm[0] == m[j]);
                } else {
                    assert(o.contains(m[j]));
                    let w = choose|w: int| 0 <= w < o.len() && o[w] == m[j];
                    assert(mm[w + 1] == o[w]);
                }
            }
            lemma_same_pairs_same_map(mm, m);
        },
        None => {
            assert forall|j: int| 0 <= j < m.len() implies #[trigger] mm.contains(m[j]) by {
                assert(m[j].0 != prefix_key());
            }
            lemma_same_pairs_same_map(mm, m);
        },
    }
}

/// Where each part of a written archive stands.
#[verifier::rlimit(40)]
proof fn lemma_layout(e: Seq<(Seq<char>, Seq<u8>)>, m: Seq<(Seq<char>, Seq<char>)>)
    ensures
        ({
            let b = archive_bytes(e, m);
            let x = header_bytes(ext_header());
            let mb = meta_bytes(m);
            let ht = headers_bytes(write_order(e)) + header_bytes(terminator());
            let cb = contents_bytes(write_order(e));
            let at_meta = x.len() as int;
            let at_headers = at_meta + mb.len();
            let at_contents = at_headers + ht.len();
            &&& b.subrange(0, at_meta) == x
            &&& b.subrange(at_meta, at_headers) == mb
            &&& b.subrange(at_headers, at_contents) == ht
            &&& b.subrange(at_contents, at_contents + cb.len()) == cb
            &&& b.len() == at_contents + cb.len() + 21
        }),
{
    broadcast use vstd::array::group_array_axioms;

    let b = archive_bytes(e, m);
    let body = body_bytes(e, m);
    let x = header_bytes(ext_header());
    let mb = meta_bytes(m);
    let hb = headers_bytes(write_order(e));
    let t = header_bytes(terminator());
    let cb = contents_bytes(write_order(e));
    let tail = seq![0u8] + sha1_of(body)@;
    assert(sha1_of(body)@.len() == 20);
    assert(b =~= Seq::<u8>::empty() + x + (mb + (hb + t) + (cb + tail)));
    lemma_window(Seq::<u8>::empty(), x, mb + (hb + t) + (cb + tail));
    assert(b =~= x + mb + ((hb + t) + (cb + tail)));
    lemma_window(x, mb, (hb + t) + (cb + tail));
    assert(b =~= (x + mb) + (hb + t) + (cb + tail));
    lemma_window(x + mb, hb + t, cb + tail);
    assert(b =~= (x + mb + (hb + t)) + cb + tail);
    lemma_window(x + mb + (hb + t), cb, tail);
}

/// Reading what writing produced gives back the same entries and the same
/// metadata, each as a map from name to value, wherever every entry name is
/// unique, non-empty and free of NUL, every content fits a 32-bit size, and
/// every metadata key is unique, non-empty and free of NUL, as is every
/// value.
#[verifier::rlimit(40)]
pub proof fn lemma_round_trip(p: PBO)
    requires
        keys_unique(p.entries()),
        storable_names(p.entries()),
        keys_unique(p.metadata()),
        storable_meta(p.metadata()),
    ensures
        parse_archive(archive_bytes(p.entries(), p.metadata())) matches Ok(a) && pairs_map(a.entries)
            == pairs_map(p.entries()) && pairs_map(a.metadata) == pairs_map(p.metadata()),
{
    let e = p.entries();
    let m = p.metadata();
    let wo = write_order(e);
    lemma_write_order_pairs(e);
    lemma_layout(e, m);
    let b = archive_bytes(e, m);
    let x = header_bytes(ext_header());
    let mb = meta_bytes(m);
    let hb = headers_bytes(wo);
    let t = header_bytes(terminator());
    let at_meta = x.len() as int;
    let at_headers = at_meta + mb.len();
    let at_contents = at_headers + hb.len() + t.len();
    lemma_empty_no_nul();
    lemma_header_round_trip(b, 0, ext_header());
    lemma_meta_block(b, at_meta, m);
    let mm = meta_read(m);
    lemma_headers_parse(b, at_headers, mm, Seq::empty(), wo);
    let hs = wo.map_values(|q: (Seq<char>, Seq<u8>)| entry_header(q));
    assert(Seq::<HeaderView>::empty() + hs =~= hs);
    assert(headers_at(b, 0, true, Seq::empty(), Seq::empty()) == Ok::<_, PboError>((mm, hs, at_contents)));
    lemma_contents_parse(b, at_contents, wo, Seq::empty());
    assert(Seq::<(Seq<char>, Seq<u8>)>::empty() + wo =~= wo);
    assert(parse_archive(b) matches Ok(v) && v.entries == wo && v.metadata == mm);
    lemma_same_pairs_same_map(wo, e);
    lemma_meta_read(m);
}

} // verus!
