//! Properties of the archive format that relate several operations.

use crate::format::{archive_bytes, entry_keys, name_key, write_order};
use crate::hashes::{content_hash_input, denied_ext, extension, joined, name_hash_input};
use crate::order::{keys_in, lemma_sorted_global, lemma_stable_mapped, lemma_sorted_keys, lemma_sorted_unique, lemma_stable_order, lex_le, sorted_seq, stable_order};
use crate::pbo::PBO;
use vstd::prelude::*;

verus! {

/// Writing depends on the entries and the metadata alone: a container
/// written twice, or two containers that hold the same entries and
/// metadata, give byte-identical archives.
pub proof fn lemma_write_deterministic(a: PBO, b: PBO)
    requires
        a.entries() == b.entries(),
        a.metadata() == b.metadata(),
    ensures
        archive_bytes(a.entries(), a.metadata()) == archive_bytes(b.entries(), b.metadata()),
{
}

/// Entries are written in ascending order of their lower-cased names,
/// whatever the order of insertion, and they are the table's entries, each
/// written as often as it occurs there;
/// where no two names are equal ignoring case, the order is strict.
pub proof fn lemma_write_order_sorted(e: Seq<(Seq<char>, Seq<u8>)>)
    ensures
        write_order(e).len() == e.len(),
        forall|i: int, j: int|
            0 <= i < j < e.len() ==> lex_le(
                name_key(#[trigger] write_order(e)[i].0),
                name_key(#[trigger] write_order(e)[j].0),
            ),
        write_order(e).to_multiset() == e.to_multiset(),
        (forall|i: int, j: int| 0 <= i < j < e.len() ==> name_key(#[trigger] e[i].0) != name_key(#[trigger] e[j].0))
            ==> forall|i: int, j: int|
            0 <= i < j < e.len() ==> name_key(#[trigger] write_order(e)[i].0) != name_key(#[trigger] write_order(e)[j].0),
{
    lemma_order_facts(e);
    lemma_order_covers(e);
    lemma_order_strict(e);
}

proof fn lemma_order_facts(e: Seq<(Seq<char>, Seq<u8>)>)
    ensures
        write_order(e).len() == e.len(),
        forall|i: int, j: int|
            0 <= i < j < e.len() ==> lex_le(
                name_key(#[trigger] write_order(e)[i].0),
                name_key(#[trigger] write_order(e)[j].0),
            ),
{
    let ks = entry_keys(e);
    let o = stable_order(ks, e.len() as int);
    lemma_stable_order(ks, e.len() as int);
    lemma_sorted_keys(ks, e.len() as int);
    let sk = keys_in(ks, o);
    let wo = write_order(e);
    assert forall|i: int, j: int| 0 <= i < j < e.len() implies lex_le(name_key(#[trigger] wo[i].0), name_key(#[trigger] wo[j].0)) by {
        lemma_sorted_global(sk, i, j);
        assert(wo[i] == e[o[i]] && wo[j] == e[o[j]]);
        assert(sk[i] == ks[o[i]] && sk[j] == ks[o[j]]);
        assert(ks[o[i]] == name_key(e[o[i]].0));
        assert(ks[o[j]] == name_key(e[o[j]].0));
    }
}

proof fn lemma_order_covers(e: Seq<(Seq<char>, Seq<u8>)>)
    ensures
        write_order(e).to_multiset() == e.to_multiset(),
{
    lemma_stable_mapped(entry_keys(e), e.len() as int, e);
    assert(e.subrange(0, e.len() as int) =~= e);
}

proof fn lemma_order_strict(e: Seq<(Seq<char>, Seq<u8>)>)
    ensures
        (forall|i: int, j: int| 0 <= i < j < e.len() ==> name_key(#[trigger] e[i].0) != name_key(#[trigger] e[j].0))
            ==> forall|i: int, j: int|
            0 <= i < j < e.len() ==> name_key(#[trigger] write_order(e)[i].0) != name_key(#[trigger] write_order(e)[j].0),
{
    let ks = entry_keys(e);
    let o = stable_order(ks, e.len() as int);
    lemma_stable_order(ks, e.len() as int);
    let wo = write_order(e);
    if forall|i: int, j: int| 0 <= i < j < e.len() ==> name_key(#[trigger] e[i].0) != name_key(#[trigger] e[j].0) {
        assert forall|i: int, j: int| 0 <= i < j < e.len() implies name_key(#[trigger] wo[i].0) != name_key(#[trigger] wo[j].0) by {
            assert(wo[i] == e[o[i]]);
            assert(wo[j] == e[o[j]]);
            assert(o[i] != o[j]);
            if o[i] < o[j] {
                assert(name_key(e[o[i]].0) != name_key(e[o[j]].0));
            } else {
                assert(name_key(e[o[j]].0) != name_key(e[o[i]].0));
            }
        }
    }
}

/// The keys of `ss` joined together.
pub open spec fn flat(ss: Seq<Seq<u8>>) -> Seq<u8>
    decreases ss.len(),
{
    if ss.len() == 0 {
        Seq::empty()
    } else {
        flat(ss.drop_last()) + ss.last()
    }
}

proof fn lemma_joined_flat(keys: Seq<Seq<u8>>, o: Seq<int>)
    ensures
        joined(keys, o) == flat(keys_in(keys, o)),
    decreases o.len(),
{
    if o.len() > 0 {
        lemma_joined_flat(keys, o.drop_last());
        assert(keys_in(keys, o).drop_last() =~= keys_in(keys, o.drop_last()));
    }
}

proof fn lemma_name_hash_sorted(e: Seq<(Seq<char>, Seq<u8>)>)
    ensures
        name_hash_input(e) == flat(keys_in(entry_keys(e), stable_order(entry_keys(e), e.len() as int))),
        keys_in(entry_keys(e), stable_order(entry_keys(e), e.len() as int)).to_multiset() == entry_keys(e).to_multiset(),
        sorted_seq(keys_in(entry_keys(e), stable_order(entry_keys(e), e.len() as int))),
{
    let ks = entry_keys(e);
    lemma_joined_flat(ks, stable_order(ks, e.len() as int));
    lemma_sorted_keys(ks, e.len() as int);
    assert(ks.subrange(0, e.len() as int) =~= ks);
}

/// The name hash depends on the lower-cased names alone: two containers
/// whose names agree ignoring case, as a multiset and in any order, have the
/// same name hash whatever their contents.
pub proof fn lemma_name_hash_ignores_case_and_content(a: Seq<(Seq<char>, Seq<u8>)>, b: Seq<(Seq<char>, Seq<u8>)>)
    requires
        entry_keys(a).to_multiset() == entry_keys(b).to_multiset(),
    ensures
        name_hash_input(a) == name_hash_input(b),
{
    lemma_name_hash_sorted(a);
    lemma_name_hash_sorted(b);
    lemma_sorted_unique(
        keys_in(entry_keys(a), stable_order(entry_keys(a), a.len() as int)),
        keys_in(entry_keys(b), stable_order(entry_keys(b), b.len() as int)),
    );
}

/// An archive whose entries all have a denied (media) extension, an empty
/// archive among them, has the content hash of an empty archive.
pub proof fn lemma_media_only_hash(e: Seq<(Seq<char>, Seq<u8>)>)
    requires
        forall|i: int| 0 <= i < e.len() ==> denied_ext(extension(#[trigger] e[i].0)),
    ensures
        content_hash_input(e) == content_hash_input(Seq::empty()),
{
}

} // verus!
