//! The two identity digests of an archive: one over its names, one over its
//! contents.

use crate::digest::{lowercase, sha1, sha1_of};
use crate::entries::table_pairs;
use crate::format::{entry_keys, name_key};
use crate::order::{sort_order, stable_order};
use crate::pbo::PBO;
use vstd::prelude::*;
use vstd::slice::{slice_subrange, slice_to_vec};
use vstd::utf8::encode_utf8;

verus! {

/// The keys `keys[order[0]]`, `keys[order[1]]`, ... joined together.
pub open spec fn joined(keys: Seq<Seq<u8>>, order: Seq<int>) -> Seq<u8>
    decreases order.len(),
{
    if order.len() == 0 {
        Seq::empty()
    } else {
        joined(keys, order.drop_last()) + keys[order.last()]
    }
}

/// What the name hash digests: every lower-cased name, in ascending order,
/// with no separator.
pub open spec fn name_hash_input(e: Seq<(Seq<char>, Seq<u8>)>) -> Seq<u8> {
    joined(entry_keys(e), stable_order(entry_keys(e), e.len() as int))
}

pub const DOT: u8 = 46;

/// Index just after the last `.` of `b`, or 0 where there is none.
pub open spec fn ext_start(b: Seq<u8>) -> int
    decreases b.len(),
{
    if b.len() == 0 {
        0
    } else if b.last() == DOT {
        b.len() as int
    } else {
        ext_start(b.drop_last())
    }
}

/// The extension of a name: what follows its last `.`, or the whole name.
pub open spec fn extension(n: Seq<char>) -> Seq<u8> {
    let b = encode_utf8(n);
    b.subrange(ext_start(b), b.len() as int)
}

/// The extensions whose files the content hash leaves out: media and
/// geometry formats that carry their own integrity markers.
pub open spec fn denied_ext(x: Seq<u8>) -> bool {
    ||| x == encode_utf8("paa"@)
    ||| x == encode_utf8("jpg"@)
    ||| x == encode_utf8("p3d"@)
    ||| x == encode_utf8("tga"@)
    ||| x == encode_utf8("rvmat"@)
    ||| x == encode_utf8("lip"@)
    ||| x == encode_utf8("ogg"@)
    ||| x == encode_utf8("wss"@)
    ||| x == encode_utf8("png"@)
    ||| x == encode_utf8("rtm"@)
    ||| x == encode_utf8("pac"@)
    ||| x == encode_utf8("fxy"@)
    ||| x == encode_utf8("wrp"@)
}

/// The contents of the entries that are not denied, in table order.
pub open spec fn hashed_contents(e: Seq<(Seq<char>, Seq<u8>)>) -> Seq<u8>
    decreases e.len(),
{
    if e.len() == 0 {
        Seq::empty()
    } else if denied_ext(extension(e.last().0)) {
        hashed_contents(e.drop_last())
    } else {
        hashed_contents(e.drop_last()) + e.last().1
    }
}

/// Some entry is not denied.
pub open spec fn any_hashed(e: Seq<(Seq<char>, Seq<u8>)>) -> bool {
    exists|i: int| 0 <= i < e.len() && !denied_ext(extension(#[trigger] e[i].0))
}

/// What the content hash digests: the contents that are not denied, or the
/// placeholder `nothing` where there are none.
pub open spec fn content_hash_input(e: Seq<(Seq<char>, Seq<u8>)>) -> Seq<u8> {
    if any_hashed(e) {
        hashed_contents(e)
    } else {
        encode_utf8("nothing"@)
    }
}

fn bytes_eq(a: &[u8], b: &[u8]) -> (r: bool)
    ensures
        r == (a@ == b@),
{
    if a.len() != b.len() {
        return false;
    }
    let mut i: usize = 0;
    while i < a.len()
        invariant
            0 <= i <= a@.len(),
            a@.len() == b@.len(),
            forall|j: int| 0 <= j < i ==> a@[j] == b@[j],
        decreases a@.len() - i,
    {
        if a[i] != b[i] {
            return false;
        }
        i = i + 1;
    }
    assert(a@ =~= b@);
    true
}

/// The extension of `name`, as bytes.
fn extension_of(name: &String) -> (r: Vec<u8>)
    ensures
        r@ == extension(name@),
{
    let b = name.as_str().as_bytes();
    let mut i: usize = b.len();
    assert(b@.subrange(0, b@.len() as int) =~= b@);
    while i > 0 && b[i - 1] != DOT
        invariant
            0 <= i <= b@.len(),
            ext_start(b@) == ext_start(b@.subrange(0, i as int)),
        decreases i,
    {
        assert(b@.subrange(0, i as int).drop_last() =~= b@.subrange(0, i - 1));
        i = i - 1;
    }
    slice_to_vec(slice_subrange(b, i, b.len()))
}

/// Whether files named with this extension are left out of the content hash.
fn is_denied(x: &[u8]) -> (r: bool)
    ensures
        r == denied_ext(x@),
{
    bytes_eq(x, "paa".as_bytes()) || bytes_eq(x, "jpg".as_bytes()) || bytes_eq(x, "p3d".as_bytes())
        || bytes_eq(x, "tga".as_bytes()) || bytes_eq(x, "rvmat".as_bytes()) || bytes_eq(
        x,
        "lip".as_bytes(),
    ) || bytes_eq(x, "ogg".as_bytes()) || bytes_eq(x, "wss".as_bytes()) || bytes_eq(
        x,
        "png".as_bytes(),
    ) || bytes_eq(x, "rtm".as_bytes()) || bytes_eq(x, "pac".as_bytes()) || bytes_eq(
        x,
        "fxy".as_bytes(),
    ) || bytes_eq(x, "wrp".as_bytes())
}

impl PBO {
    /// SHA-1 over the lower-cased names in ascending order.
    pub fn namehash(&self) -> (r: [u8; 20])
        ensures
            r == sha1_of(name_hash_input(self.entries())),
    {
        let ghost e = self.entries();
        let ghost ks = entry_keys(e);
        let pairs = table_pairs(&self.files);
        let mut keys: Vec<Vec<u8>> = Vec::new();
        let mut i: usize = 0;
        while i < pairs.len()
            invariant
                0 <= i <= pairs@.len(),
                pairs@.len() == e.len(),
                ks == entry_keys(e),
                forall|t: int| 0 <= t < pairs@.len() ==> (#[trigger] pairs@[t]).0@ == e[t].0,
                keys@.map_values(|k: Vec<u8>| k@) == ks.subrange(0, i as int),
            decreases pairs@.len() - i,
        {
            assert(pairs@[i as int].0@ == e[i as int].0);
            let low = lowercase(pairs[i].0.as_str());
            let kb = slice_to_vec(low.as_str().as_bytes());
            assert(kb@ == name_key(e[i as int].0));
            let ghost prev = keys@.map_values(|k: Vec<u8>| k@);
            keys.push(kb);
            assert(ks[i as int] == name_key(e[i as int].0));
            assert(keys@.map_values(|k: Vec<u8>| k@) =~= prev.push(kb@));
            i = i + 1;
        }
        assert(ks.subrange(0, i as int) =~= ks);
        let order = sort_order(&keys);
        let ghost ov = order@.map_values(|j: usize| j as int);
        proof {
            crate::order::lemma_stable_order(ks, e.len() as int);
            broadcast use vstd::seq_lib::group_to_multiset_ensures;
            let all = Seq::new(e.len(), |j: int| j);
            assert forall|q: int| 0 <= q < ov.len() implies 0 <= #[trigger] ov[q] < e.len() by {
                assert(ov.contains(ov[q]));
                assert(ov.to_multiset().count(ov[q]) > 0);
                assert(all.to_multiset().count(ov[q]) > 0);
                assert(all.contains(ov[q]));
                let w = choose|w: int| 0 <= w < all.len() && all[w] == ov[q];
                assert(all[w] == w);
            }
        }
        let mut data: Vec<u8> = Vec::new();
        let mut q: usize = 0;
        while q < order.len()
            invariant
                0 <= q <= order@.len(),
                ov == order@.map_values(|j: usize| j as int),
                ov.len() == e.len(),
                keys@.len() == e.len(),
                keys@.map_values(|k: Vec<u8>| k@) == ks,
                forall|t: int| 0 <= t < ov.len() ==> 0 <= #[trigger] ov[t] < e.len(),
                data@ == joined(ks, ov.subrange(0, q as int)),
            decreases order@.len() - q,
        {
            let j = order[q];
            assert(ov.subrange(0, q + 1).drop_last() =~= ov.subrange(0, q as int));
            assert(ov[q as int] == j as int);
            assert(keys@[j as int]@ == ks[j as int]);
            crate::codec::push_bytes(&mut data, keys[j].as_slice());
            q = q + 1;
        }
        assert(ov.subrange(0, q as int) =~= ov);
        sha1(data.as_slice())
    }

    /// SHA-1 over the contents of the entries whose extension is not denied,
    /// in table order; over the text `nothing` where no entry counts.
    pub fn filehash(&self) -> (r: [u8; 20])
        ensures
            r == sha1_of(content_hash_input(self.entries())),
    {
        let ghost e = self.entries();
        let pairs = table_pairs(&self.files);
        let mut data: Vec<u8> = Vec::new();
        let mut nothing = true;
        let mut i: usize = 0;
        while i < pairs.len()
            invariant
                0 <= i <= pairs@.len(),
                pairs@.len() == e.len(),
                forall|t: int| 0 <= t < pairs@.len() ==> (#[trigger] pairs@[t]).0@ == e[t].0 && pairs@[t].1@ == e[t].1,
                data@ == hashed_contents(e.subrange(0, i as int)),
                nothing == !any_hashed(e.subrange(0, i as int)),
            decreases pairs@.len() - i,
        {
            let ghost pre = e.subrange(0, i as int);
            let ghost cur = e.subrange(0, i + 1);
            assert(cur.drop_last() =~= pre);
            assert(pairs@[i as int].0@ == e[i as int].0);
            let ext = extension_of(&pairs[i].0);
            if !is_denied(ext.as_slice()) {
                crate::codec::push_bytes(&mut data, pairs[i].1.as_slice());
                nothing = false;
                assert(!denied_ext(extension(cur[i as int].0)));
            } else {
                assert forall|t: int| 0 <= t < cur.len() && !denied_ext(extension(#[trigger] cur[t].0)) implies 0 <= t < pre.len() && !denied_ext(extension(pre[t].0)) by {}
            }
            assert forall|t: int| 0 <= t < pre.len() && !denied_ext(extension(#[trigger] pre[t].0)) implies 0 <= t < cur.len() && !denied_ext(extension(cur[t].0)) by {}
            i = i + 1;
        }
        assert(e.subrange(0, i as int) =~= e);
        if nothing {
            sha1("nothing".as_bytes())
        } else {
            sha1(data.as_slice())
        }
    }
}

} // verus!
