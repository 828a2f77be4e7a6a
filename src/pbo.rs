//! The in-memory archive: its entry table, its metadata, and what reading
//! an existing archive observed.

use crate::codec::{push_bytes, push_cstring, read_cstring, HeaderView, PBOHeader, PboError, SENTINEL};
use crate::digest::{lowercase, sha1};
use crate::entries::{entry_list, keys_unique, lemma_with_entry, insert_entry, new_table, table_pairs};
use crate::format::{
    archive_bytes, body_bytes, contents_at, headers_at, meta_at, meta_insert, parse_archive, contents_bytes, entry_header, entry_keys, ext_header, headers_bytes,
    meta_bytes, meta_index, other_pairs_bytes, prefix_key, terminator, write_order,
};
use crate::order::sort_order;
use linked_hash_map::LinkedHashMap;
use vstd::prelude::*;
use vstd::slice::{slice_subrange, slice_to_vec};

verus! {

/// An archive held in memory.
pub struct PBO {
    /// File name to content, in insertion order.
    pub files: LinkedHashMap<String, Vec<u8>>,
    /// Header extensions (metadata) as key/value pairs with unique keys.
    pub header_extensions: Vec<(String, String)>,
    /// The file headers seen while reading; empty for a packed archive.
    pub headers: Vec<PBOHeader>,
    /// The trailing digest seen while reading; `None` for a packed archive.
    pub checksum: Option<Vec<u8>>,
}

/// Metadata pairs as sequences of characters.
pub open spec fn meta_view(v: Seq<(String, String)>) -> Seq<(Seq<char>, Seq<char>)> {
    v.map_values(|p: (String, String)| (p.0@, p.1@))
}

impl PBO {
    /// The entry table, in iteration order.
    pub open spec fn entries(&self) -> Seq<(Seq<char>, Seq<u8>)> {
        entry_list(self.files)
    }

    /// The metadata pairs, in order.
    pub open spec fn metadata(&self) -> Seq<(Seq<char>, Seq<char>)> {
        meta_view(self.header_extensions@)
    }
}

/// Whether `k` is the `prefix` key.
pub fn is_prefix_key(k: &String) -> (r: bool)
    ensures
        r == (k@ == prefix_key()),
{
    let p = "prefix".to_owned();
    *k == p
}

/// The index of the first pair of `m` whose key is `k`.
pub fn find_meta(m: &Vec<(String, String)>, k: &String) -> (r: Option<usize>)
    ensures
        meta_index(meta_view(m@), k@) == match r {
            Some(i) => Some(i as int),
            None => None::<int>,
        },
        r matches Some(i) ==> i < m@.len(),
{
    let ghost mv = meta_view(m@);
    let mut i: usize = 0;
    assert(mv.subrange(0, mv.len() as int) =~= mv);
    while i < m.len()
        invariant
            0 <= i <= m@.len(),
            mv == meta_view(m@),
            meta_index(mv, k@) == match meta_index(mv.subrange(i as int, mv.len() as int), k@) {
                Some(j) => Some(j + i),
                None => None::<int>,
            },
        decreases m@.len() - i,
    {
        let ghost rest = mv.subrange(i as int, mv.len() as int);
        assert(rest.drop_first() =~= mv.subrange(i + 1, mv.len() as int));
        if m[i].0 == *k {
            proof {
                crate::format::lemma_meta_index(mv, k@);
            }
            return Some(i);
        }
        i = i + 1;
    }
    assert(mv.subrange(i as int, mv.len() as int) =~= Seq::<(Seq<char>, Seq<char>)>::empty());
    None
}

impl PBO {
    /// Appends the metadata block: `prefix` first, then the other pairs in
    /// order, then an empty key.
    fn write_meta(&self, out: &mut Vec<u8>)
        ensures
            final(out)@ == old(out)@ + meta_bytes(self.metadata()),
    {
        let ghost start = out@;
        let ghost mv = self.metadata();
        let m = &self.header_extensions;
        let key = "prefix".to_owned();
        match find_meta(m, &key) {
            Some(i) => {
                push_cstring(out, key.as_str());
                push_cstring(out, m[i].1.as_str());
            },
            None => {},
        }
        let ghost mid = out@;
        let mut i: usize = 0;
        while i < m.len()
            invariant
                0 <= i <= m@.len(),
                mv == meta_view(m@),
                out@ == mid + other_pairs_bytes(mv.subrange(0, i as int)),
            decreases m@.len() - i,
        {
            assert(mv.subrange(0, i + 1).drop_last() =~= mv.subrange(0, i as int));
            if !is_prefix_key(&m[i].0) {
                push_cstring(out, m[i].0.as_str());
                push_cstring(out, m[i].1.as_str());
                assert(out@ =~= mid + other_pairs_bytes(mv.subrange(0, i + 1)));
            }
            i = i + 1;
        }
        assert(mv.subrange(0, i as int) =~= mv);
        out.push(0u8);
        assert(out@ =~= start + meta_bytes(mv));
    }

    /// Serializes the archive onto `output`: the sentinel header and the
    /// metadata, one header per entry in case-insensitive name order, the
    /// terminator, the contents in that order, a zero pad byte and the
    /// SHA-1 digest of everything before the pad.
    #[verifier::rlimit(40)]
    pub fn write(&self, output: &mut Vec<u8>)
        ensures
            final(output)@ == old(output)@ + archive_bytes(self.entries(), self.metadata()),
    {
        let ghost e = self.entries();
        let ghost wo = write_order(e);
        let pairs = table_pairs(&self.files);
        let mut keys: Vec<Vec<u8>> = Vec::new();
        let mut i: usize = 0;
        while i < pairs.len()
            invariant
                0 <= i <= pairs@.len(),
                pairs@.len() == e.len(),
                forall|t: int| 0 <= t < pairs@.len() ==> (#[trigger] pairs@[t]).0@ == e[t].0 && pairs@[t].1@ == e[t].1,
                keys@.map_values(|k: Vec<u8>| k@) == entry_keys(e).subrange(0, i as int),
            decreases pairs@.len() - i,
        {
            assert(pairs@[i as int].0@ == e[i as int].0);
            let low = lowercase(pairs[i].0.as_str());
            let kb = slice_to_vec(low.as_str().as_bytes());
            assert(kb@ == crate::format::name_key(e[i as int].0));
            let ghost prev = keys@.map_values(|k: Vec<u8>| k@);
            keys.push(kb);
            assert(entry_keys(e)[i as int] == crate::format::name_key(e[i as int].0));
            assert(keys@.map_values(|k: Vec<u8>| k@) =~= prev.push(kb@));
            assert(keys@.map_values(|k: Vec<u8>| k@) =~= entry_keys(e).subrange(0, i + 1));
            i = i + 1;
        }
        assert(entry_keys(e).subrange(0, i as int) =~= entry_keys(e));
        let order = sort_order(&keys);
        let ghost ov = order@.map_values(|j: usize| j as int);
        proof {
            crate::order::lemma_stable_order(entry_keys(e), e.len() as int);
            broadcast use vstd::seq_lib::group_to_multiset_ensures;
            let all = Seq::new(e.len(), |j: int| j);
            assert forall|q: int| 0 <= q < ov.len() implies 0 <= #[trigger] ov[q] < e.len() by {
                assert(ov.contains(ov[q]));
                assert(ov.to_multiset().count(ov[q]) > 0);
                assert(all.to_multiset().count(ov[q]) > 0);
                assert(all.contains(ov[q]));
                let w = choose|w: int| 0 <= w < all.len() && all[w] == ov[q];
                assert(all[w] == w);
            }
        }
        let mut body: Vec<u8> = Vec::new();
        let ext = PBOHeader {
            filename: String::new(),
            packing_method: SENTINEL,
            original_size: 0,
            reserved: 0,
            timestamp: 0,
            data_size: 0,
        };
        ext.write(&mut body);
        self.write_meta(&mut body);
        let ghost start = body@;
        let mut q: usize = 0;
        while q < order.len()
            invariant
                0 <= q <= order@.len(),
                ov == order@.map_values(|j: usize| j as int),
                ov.len() == e.len(),
                wo == ov.map_values(|j: int| e[j]),
                forall|t: int| 0 <= t < ov.len() ==> 0 <= #[trigger] ov[t] < e.len(),
                pairs@.len() == e.len(),
                forall|t: int| 0 <= t < pairs@.len() ==> (#[trigger] pairs@[t]).0@ == e[t].0 && pairs@[t].1@ == e[t].1,
                body@ == start + headers_bytes(wo.subrange(0, q as int)),
            decreases order@.len() - q,
        {
            let j = order[q];
            assert(wo.subrange(0, q + 1).drop_last() =~= wo.subrange(0, q as int));
            assert(wo[q as int] == e[j as int]);
            let n = #[verifier::truncate] (pairs[j].1.len() as u32);
            let h = PBOHeader {
                filename: pairs[j].0.clone(),
                packing_method: 0,
                original_size: n,
                reserved: 0,
                timestamp: 0,
                data_size: n,
            };
            assert(h@ == entry_header(wo[q as int]));
            h.write(&mut body);
            assert(body@ =~= start + headers_bytes(wo.subrange(0, q + 1)));
            q = q + 1;
        }
        let term = PBOHeader { packing_method: 0, ..ext };
        term.write(&mut body);
        let ghost start2 = body@;
        let mut q: usize = 0;
        while q < order.len()
            invariant
                0 <= q <= order@.len(),
                ov == order@.map_values(|j: usize| j as int),
                ov.len() == e.len(),
                wo == ov.map_values(|j: int| e[j]),
                forall|t: int| 0 <= t < ov.len() ==> 0 <= #[trigger] ov[t] < e.len(),
                pairs@.len() == e.len(),
                forall|t: int| 0 <= t < pairs@.len() ==> (#[trigger] pairs@[t]).0@ == e[t].0 && pairs@[t].1@ == e[t].1,
                body@ == start2 + contents_bytes(wo.subrange(0, q as int)),
            decreases order@.len() - q,
        {
            let j = order[q];
            assert(wo.subrange(0, q + 1).drop_last() =~= wo.subrange(0, q as int));
            assert(wo[q as int] == e[j as int]);
            push_bytes(&mut body, pairs[j].1.as_slice());
            assert(body@ =~= start2 + contents_bytes(wo.subrange(0, q + 1)));
            q = q + 1;
        }
        assert(wo.subrange(0, q as int) =~= wo);
        assert(term@ == terminator());
        assert(ext@ == ext_header());
        assert(body@ =~= body_bytes(e, self.metadata()));
        let digest = sha1(body.as_slice());
        let ghost before = output@;
        push_bytes(output, body.as_slice());
        output.push(0u8);
        push_bytes(output, &digest);
        assert(output@ =~= before + archive_bytes(e, self.metadata()));
    }
}


/// Sets `k` to `v`: replaces the value where the key is present, otherwise
/// appends the pair.
pub fn meta_set(m: &mut Vec<(String, String)>, k: String, v: String)
    ensures
        meta_view(final(m)@) == meta_insert(meta_view(old(m)@), k@, v@),
        keys_unique(meta_view(old(m)@)) ==> keys_unique(meta_view(final(m)@)),
{
    let ghost mv = meta_view(m@);
    proof {
        if keys_unique(mv) {
            crate::format::lemma_meta_insert_unique(mv, k@, v@);
        }
    }
    match find_meta(m, &k) {
        Some(i) => {
            m.set(i, (k, v));
            assert(meta_view(m@) =~= mv.update(i as int, (k@, v@)));
        },
        None => {
            m.push((k, v));
            assert(meta_view(m@) =~= mv.push((k@, v@)));
        },
    }
}

/// The headers' mathematical values.
pub open spec fn headers_view(hs: Seq<PBOHeader>) -> Seq<HeaderView> {
    hs.map_values(|h: PBOHeader| h@)
}

/// Reads metadata pairs from `pos` up to an empty key into `m`.
fn read_meta(input: &[u8], pos: usize, m: &mut Vec<(String, String)>) -> (r: Result<usize, PboError>)
    ensures
        match (r, meta_at(input@, pos as int, meta_view(old(m)@))) {
            (Ok(q), Ok((m2, q2))) => q == q2 && meta_view(final(m)@) == m2,
            (Err(x), Err(y)) => x == y,
            _ => false,
        },
        keys_unique(meta_view(old(m)@)) ==> keys_unique(meta_view(final(m)@)),
{
    let ghost goal = meta_at(input@, pos as int, meta_view(m@));
    let mut p: usize = pos;
    loop
        invariant
            goal == meta_at(input@, pos as int, meta_view(old(m)@)),
            goal == meta_at(input@, p as int, meta_view(m@)),
            keys_unique(meta_view(old(m)@)) ==> keys_unique(meta_view(m@)),
        decreases input@.len() - p,
    {
        proof {
            crate::format::lemma_cstring_advances(input@, p as int);
        }
        let (k, after_key) = match read_cstring(input, p) {
            Ok(x) => x,
            Err(e) => return Err(e),
        };
        if k.as_str().is_empty() {
            return Ok(after_key);
        }
        proof {
            crate::format::lemma_cstring_advances(input@, after_key as int);
            assert(k@.len() != 0);
        }
        let (v, after_value) = match read_cstring(input, after_key) {
            Ok(x) => x,
            Err(e) => return Err(e),
        };
        meta_set(m, k, v);
        p = after_value;
    }
}

impl PBO {
    /// Decodes an archive: the header section (metadata block first, then
    /// file headers up to an empty name), each file's content in header
    /// order, one skipped pad byte and the 20-byte checksum, which is kept
    /// but not checked.
    #[verifier::rlimit(40)]
    pub fn read(input: &[u8]) -> (r: Result<PBO, PboError>)
        ensures
            match (r, parse_archive(input@)) {
                (Ok(p), Ok(a)) => {
                    &&& p.entries() == a.entries
                    &&& p.metadata() == a.metadata
                    &&& headers_view(p.headers@) == a.headers
                    &&& p.checksum matches Some(c) && c@ == a.checksum
                    &&& keys_unique(p.entries())
                    &&& keys_unique(p.metadata())
                },
                (Err(x), Err(y)) => x == y,
                _ => false,
            },
    {
        let mut headers: Vec<PBOHeader> = Vec::new();
        let mut header_extensions: Vec<(String, String)> = Vec::new();
        let mut first = true;
        let mut pos: usize = 0;
        let ghost goal = headers_at(input@, 0, true, Seq::empty(), Seq::empty());
        proof {
            assert(meta_view(header_extensions@) =~= Seq::<(Seq<char>, Seq<char>)>::empty());
            assert(headers_view(headers@) =~= Seq::<HeaderView>::empty());
        }
        loop
            invariant_except_break
                pos <= input@.len(),
                goal == headers_at(input@, 0, true, Seq::empty(), Seq::empty()),
                goal == headers_at(input@, pos as int, first, meta_view(header_extensions@), headers_view(headers@)),
                keys_unique(meta_view(header_extensions@)),
            ensures
                keys_unique(meta_view(header_extensions@)),
                pos <= input@.len(),
                goal == headers_at(input@, 0, true, Seq::empty(), Seq::empty()),
                goal == Ok::<_, PboError>((meta_view(header_extensions@), headers_view(headers@), pos as int)),
            decreases input@.len() - pos,
        {
            proof {
                crate::format::lemma_cstring_advances(input@, pos as int);
            }
            let (header, p) = match PBOHeader::read(input, pos) {
                Ok(x) => x,
                Err(e) => return Err(e),
            };
            if header.packing_method == SENTINEL {
                if !first {
                    return Err(PboError::MisplacedSentinel);
                }
                proof {
                    crate::format::lemma_meta_at_advances(input@, p as int, meta_view(header_extensions@));
                }
                pos = match read_meta(input, p, &mut header_extensions) {
                    Ok(q) => q,
                    Err(e) => return Err(e),
                };
            } else if header.filename.as_str().is_empty() {
                pos = p;
                break;
            } else {
                proof {
                    assert(header.filename@.len() != 0);
                }
                let ghost hv = headers_view(headers@);
                headers.push(header);
                assert(headers_view(headers@) =~= hv.push(header@));
                pos = p;
            }
            first = false;
        }
        let ghost hs = headers_view(headers@);
        let ghost goal2 = contents_at(input@, pos as int, hs, Seq::empty());
        let ghost goal2_start = pos;
        let mut files = new_table();
        let mut k: usize = 0;
        assert(hs.subrange(0, hs.len() as int) =~= hs);
        while k < headers.len()
            invariant
                0 <= k <= headers@.len(),
                hs == headers_view(headers@),
                pos <= input@.len(),
                goal == headers_at(input@, 0, true, Seq::empty(), Seq::empty()),
                goal == Ok::<_, PboError>((meta_view(header_extensions@), hs, goal2_start as int)),
                goal2 == contents_at(input@, goal2_start as int, hs, Seq::empty()),
                goal2 == contents_at(input@, pos as int, hs.subrange(k as int, hs.len() as int), entry_list(files)),
                keys_unique(entry_list(files)),
                keys_unique(meta_view(header_extensions@)),
            decreases headers@.len() - k,
        {
            let ghost rest = hs.subrange(k as int, hs.len() as int);
            assert(rest.drop_first() =~= hs.subrange(k + 1, hs.len() as int));
            assert(rest[0] == headers@[k as int]@);
            let size = headers[k].data_size as usize;
            if input.len() - pos < size {
                return Err(PboError::Truncated);
            }
            let data = slice_to_vec(slice_subrange(input, pos, pos + size));
            proof {
                lemma_with_entry(entry_list(files), headers@[k as int].filename@, data@);
            }
            insert_entry(&mut files, headers[k].filename.clone(), data);
            pos = pos + size;
            k = k + 1;
        }
        if input.len() - pos < 21 {
            return Err(PboError::Truncated);
        }
        let checksum = slice_to_vec(slice_subrange(input, pos + 1, pos + 21));
        Ok(PBO { files, header_extensions, headers, checksum: Some(checksum) })
    }
}

} // verus!
