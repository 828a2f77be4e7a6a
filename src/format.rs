//! The archive layout, as spec functions over byte sequences: what `write`
//! produces and what `read` accepts.
//!
//! ```text
//! Archive := ExtBlock EntryHeader* Terminator Content* pad:u8 sha1:[u8; 20]
//! ExtBlock := Header{method = SENTINEL} (key value)* ""
//! ```

use crate::codec::{cstring_at, cstring_bytes, header_at, header_bytes, nul_index, HeaderView, PboError, SENTINEL};
use crate::digest::{lower_of, sha1_of};
use crate::entries::{keys_unique, with_entry};
use crate::order::stable_order;
use vstd::prelude::*;
use vstd::utf8::encode_utf8;

verus! {

/// The metadata key naming the archive's logical root.
pub open spec fn prefix_key() -> Seq<char> {
    "prefix"@
}

/// Index of the first pair of `m` whose key is `k`.
pub open spec fn meta_index(m: Seq<(Seq<char>, Seq<char>)>, k: Seq<char>) -> Option<int>
    decreases m.len(),
{
    if m.len() == 0 {
        None
    } else if m[0].0 == k {
        Some(0)
    } else {
        match meta_index(m.drop_first(), k) {
            Some(i) => Some(i + 1),
            None => None,
        }
    }
}

pub proof fn lemma_meta_index(m: Seq<(Seq<char>, Seq<char>)>, k: Seq<char>)
    ensures
        match meta_index(m, k) {
            Some(i) => 0 <= i < m.len() && m[i].0 == k && forall|j: int| 0 <= j < i ==> m[j].0 != k,
            None => forall|j: int| 0 <= j < m.len() ==> m[j].0 != k,
        },
    decreases m.len(),
{
    if m.len() > 0 {
        lemma_meta_index(m.drop_first(), k);
        assert forall|j: int| 0 < j < m.len() implies m[j] == m.drop_first()[j - 1] by {}
    }
}

/// The metadata after setting `k` to `v`: the value is replaced where the
/// key is present, otherwise the pair is appended.
pub open spec fn meta_insert(m: Seq<(Seq<char>, Seq<char>)>, k: Seq<char>, v: Seq<char>) -> Seq<(Seq<char>, Seq<char>)> {
    match meta_index(m, k) {
        Some(i) => m.update(i, (k, v)),
        None => m.push((k, v)),
    }
}

/// Setting a key keeps the keys unique.
pub proof fn lemma_meta_insert_unique(m: Seq<(Seq<char>, Seq<char>)>, k: Seq<char>, v: Seq<char>)
    requires
        keys_unique(m),
    ensures
        keys_unique(meta_insert(m, k, v)),
{
    lemma_meta_index(m, k);
    let r = meta_insert(m, k, v);
    assert forall|i: int, j: int| 0 <= i < r.len() && 0 <= j < r.len() && i != j implies #[trigger] r[i].0 != #[trigger] r[j].0 by {
        match meta_index(m, k) {
            Some(t) => {
                assert(r[i].0 == m[i].0 && r[j].0 == m[j].0);
            },
            None => {
                if i < m.len() && j < m.len() {
                    assert(r[i] == m[i] && r[j] == m[j]);
                } else if i < m.len() {
                    assert(r[i] == m[i]);
                } else {
                    assert(r[j] == m[j]);
                }
            },
        }
    }
}

/// The sort key of an entry name: the UTF-8 bytes of its lower-case form.
pub open spec fn name_key(n: Seq<char>) -> Seq<u8> {
    encode_utf8(lower_of(n))
}

pub open spec fn entry_keys(e: Seq<(Seq<char>, Seq<u8>)>) -> Seq<Seq<u8>> {
    e.map_values(|p: (Seq<char>, Seq<u8>)| name_key(p.0))
}

/// The entries in the order they are written: stably sorted by `name_key`.
pub open spec fn write_order(e: Seq<(Seq<char>, Seq<u8>)>) -> Seq<(Seq<char>, Seq<u8>)> {
    stable_order(entry_keys(e), e.len() as int).map_values(|j: int| e[j])
}

pub open spec fn ext_header() -> HeaderView {
    HeaderView {
        filename: Seq::empty(),
        packing_method: SENTINEL,
        original_size: 0,
        reserved: 0,
        timestamp: 0,
        data_size: 0,
    }
}

pub open spec fn terminator() -> HeaderView {
    HeaderView { packing_method: 0, ..ext_header() }
}

/// The header written for an entry: stored, with its length as both sizes.
pub open spec fn entry_header(p: (Seq<char>, Seq<u8>)) -> HeaderView {
    HeaderView {
        filename: p.0,
        packing_method: 0,
        original_size: p.1.len() as u32,
        reserved: 0,
        timestamp: 0,
        data_size: p.1.len() as u32,
    }
}

pub open spec fn headers_bytes(s: Seq<(Seq<char>, Seq<u8>)>) -> Seq<u8>
    decreases s.len(),
{
    if s.len() == 0 {
        Seq::empty()
    } else {
        headers_bytes(s.drop_last()) + header_bytes(entry_header(s.last()))
    }
}

pub open spec fn contents_bytes(s: Seq<(Seq<char>, Seq<u8>)>) -> Seq<u8>
    decreases s.len(),
{
    if s.len() == 0 {
        Seq::empty()
    } else {
        contents_bytes(s.drop_last()) + s.last().1
    }
}

pub open spec fn pair_bytes(k: Seq<char>, v: Seq<char>) -> Seq<u8> {
    cstring_bytes(k) + cstring_bytes(v)
}

/// The pairs of `m` other than `prefix`, in order.
pub open spec fn other_pairs_bytes(m: Seq<(Seq<char>, Seq<char>)>) -> Seq<u8>
    decreases m.len(),
{
    if m.len() == 0 {
        Seq::empty()
    } else if m.last().0 == prefix_key() {
        other_pairs_bytes(m.drop_last())
    } else {
        other_pairs_bytes(m.drop_last()) + pair_bytes(m.last().0, m.last().1)
    }
}

/// The metadata block after the sentinel header: `prefix` first, then the
/// other pairs, then an empty key.
pub open spec fn meta_bytes(m: Seq<(Seq<char>, Seq<char>)>) -> Seq<u8> {
    let first = match meta_index(m, prefix_key()) {
        Some(i) => pair_bytes(prefix_key(), m[i].1),
        None => Seq::empty(),
    };
    first + other_pairs_bytes(m) + seq![0u8]
}

/// Everything that the trailing digest covers.
pub open spec fn body_bytes(e: Seq<(Seq<char>, Seq<u8>)>, m: Seq<(Seq<char>, Seq<char>)>) -> Seq<u8> {
    header_bytes(ext_header()) + meta_bytes(m) + headers_bytes(write_order(e)) + header_bytes(
        terminator(),
    ) + contents_bytes(write_order(e))
}

/// A whole serialized archive.
pub open spec fn archive_bytes(e: Seq<(Seq<char>, Seq<u8>)>, m: Seq<(Seq<char>, Seq<char>)>) -> Seq<u8> {
    let body = body_bytes(e, m);
    body + seq![0u8] + sha1_of(body)@
}

pub proof fn lemma_nul_index_after(b: Seq<u8>, pos: int)
    ensures
        nul_index(b, pos) matches Some(e) ==> pos <= e < b.len() && b[e] == 0,
    decreases b.len() - pos,
{
    if 0 <= pos < b.len() && b[pos] != 0 {
        lemma_nul_index_after(b, pos + 1);
    }
}

pub proof fn lemma_cstring_advances(b: Seq<u8>, pos: int)
    ensures
        cstring_at(b, pos) matches Ok((_, p)) ==> pos < p <= b.len(),
{
    lemma_nul_index_after(b, pos);
}

/// The metadata pairs from `pos` up to an empty key, added to `m`.
pub open spec fn meta_at(b: Seq<u8>, pos: int, m: Seq<(Seq<char>, Seq<char>)>) -> Result<(Seq<(Seq<char>, Seq<char>)>, int), PboError>
    decreases b.len() - pos,
    via meta_at_decreases
{
    match cstring_at(b, pos) {
        Err(e) => Err(e),
        Ok((k, p)) => if k.len() == 0 {
            Ok((m, p))
        } else {
            match cstring_at(b, p) {
                Err(e) => Err(e),
                Ok((v, q)) => meta_at(b, q, meta_insert(m, k, v)),
            }
        },
    }
}

#[via_fn]
proof fn meta_at_decreases(b: Seq<u8>, pos: int, m: Seq<(Seq<char>, Seq<char>)>) {
    lemma_cstring_advances(b, pos);
    if let Ok((_, p)) = cstring_at(b, pos) {
        lemma_cstring_advances(b, p);
    }
}

/// The header section from `pos`: metadata, the file headers in order, and
/// the position after the terminator.
pub open spec fn headers_at(b: Seq<u8>, pos: int, first: bool, m: Seq<(Seq<char>, Seq<char>)>, hs: Seq<HeaderView>) -> Result<(Seq<(Seq<char>, Seq<char>)>, Seq<HeaderView>, int), PboError>
    decreases b.len() - pos,
    via headers_at_decreases
{
    match header_at(b, pos) {
        Err(e) => Err(e),
        Ok((h, p)) => if h.packing_method == SENTINEL {
            if !first {
                Err(PboError::MisplacedSentinel)
            } else {
                match meta_at(b, p, m) {
                    Err(e) => Err(e),
                    Ok((m2, q)) => headers_at(b, q, false, m2, hs),
                }
            }
        } else if h.filename.len() == 0 {
            Ok((m, hs, p))
        } else {
            headers_at(b, p, false, m, hs.push(h))
        },
    }
}

pub proof fn lemma_meta_at_advances(b: Seq<u8>, pos: int, m: Seq<(Seq<char>, Seq<char>)>)
    ensures
        meta_at(b, pos, m) matches Ok((_, q)) ==> pos < q <= b.len(),
    decreases b.len() - pos,
{
    lemma_cstring_advances(b, pos);
    if let Ok((k, p)) = cstring_at(b, pos) {
        lemma_cstring_advances(b, p);
        if k.len() != 0 {
            if let Ok((v, q)) = cstring_at(b, p) {
                lemma_meta_at_advances(b, q, meta_insert(m, k, v));
            }
        }
    }
}

#[via_fn]
proof fn headers_at_decreases(b: Seq<u8>, pos: int, first: bool, m: Seq<(Seq<char>, Seq<char>)>, hs: Seq<HeaderView>) {
    lemma_cstring_advances(b, pos);
    if let Ok((h, p)) = header_at(b, pos) {
        lemma_meta_at_advances(b, p, m);
    }
}

/// The contents of the headers `hs`, read in order from `pos`, added to `e`.
pub open spec fn contents_at(b: Seq<u8>, pos: int, hs: Seq<HeaderView>, e: Seq<(Seq<char>, Seq<u8>)>) -> Result<(Seq<(Seq<char>, Seq<u8>)>, int), PboError>
    decreases hs.len(),
{
    if hs.len() == 0 {
        Ok((e, pos))
    } else {
        let h = hs[0];
        let end = pos + h.data_size;
        if end <= b.len() {
            contents_at(b, end, hs.drop_first(), with_entry(e, h.filename, b.subrange(pos, end)))
        } else {
            Err(PboError::Truncated)
        }
    }
}

/// What reading an archive yields.
pub struct ArchiveView {
    pub entries: Seq<(Seq<char>, Seq<u8>)>,
    pub metadata: Seq<(Seq<char>, Seq<char>)>,
    pub headers: Seq<HeaderView>,
    pub checksum: Seq<u8>,
}

/// The archive encoded by `b`: header section, contents, one skipped pad
/// byte and a 20-byte checksum. Trailing bytes are ignored.
pub open spec fn parse_archive(b: Seq<u8>) -> Result<ArchiveView, PboError> {
    match headers_at(b, 0, true, Seq::empty(), Seq::empty()) {
        Err(e) => Err(e),
        Ok((m, hs, p)) => match contents_at(b, p, hs, Seq::empty()) {
            Err(e) => Err(e),
            Ok((e, q)) => if q + 21 <= b.len() {
                Ok(ArchiveView { entries: e, metadata: m, headers: hs, checksum: b.subrange(q + 1, q + 21) })
            } else {
                Err(PboError::Truncated)
            },
        },
    }
}

} // verus!
