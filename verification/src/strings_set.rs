//! Hash-based deduplication tables for one diff run.
//!
//! Each table records 64-bit digests of the `(old, new)` value pairs that have
//! already been compared, so repeated substructure across a large shared graph
//! is reported in full exactly once. Only the digests are kept; two genuinely
//! distinct pairs may collide into one digest. That false positive is an
//! accepted approximation, traded for cheap membership checks: a collision can
//! only suppress a duplicate-looking detail view, never crash or corrupt the
//! output.
//!
//! Pairs are digested over a length-prefixed encoding, so that the element
//! boundaries of a sequence (for instance `["ab","c"]` against `["a","bc"]`)
//! and the boundary between the old and the new side always reach the digest,
//! and swapping the two sides changes the encoding.

use std::collections::HashSet;
use std::hash::Hasher;

use vstd::prelude::*;
use vstd::bytes::spec_u64_to_le_bytes;
use vstd::bytes::u64_to_le_bytes;

use crate::order::str_views;

verus! {

broadcast use vstd::std_specs::hash::group_hash_axioms;

/// The digest that `rustc_hash::FxHasher` computes over a byte string.
pub uninterp spec fn fx_digest(bytes: Seq<u8>) -> u64;

/// Relies on `rustc_hash::FxHasher`: starting from the default state, `write`
/// followed by `finish` computes a digest that depends on the written bytes
/// alone (the hasher is not seeded).
#[verifier::external_body]
fn fx_hash_bytes(bytes: &Vec<u8>) -> (d: u64)
    ensures
        d == fx_digest(bytes@),
{
    let mut hasher = rustc_hash::FxHasher::default();
    hasher.write(bytes.as_slice());
    hasher.finish()
}

/// A string, encoded as its UTF-8 length followed by its UTF-8 bytes.
pub open spec fn str_block(s: Seq<char>) -> Seq<u8> {
    spec_u64_to_le_bytes(vstd::utf8::encode_utf8(s).len() as u64)
        + vstd::utf8::encode_utf8(s)
}

/// The blocks of all strings of a sequence, in order.
pub open spec fn cat_blocks(items: Seq<Seq<char>>) -> Seq<u8>
    decreases items.len(),
{
    if items.len() == 0 {
        Seq::empty()
    } else {
        cat_blocks(items.drop_last()) + str_block(items.last())
    }
}

/// A string sequence, encoded as its length followed by one block per string.
pub open spec fn seq_block(items: Seq<Seq<char>>) -> Seq<u8> {
    spec_u64_to_le_bytes(items.len() as u64) + cat_blocks(items)
}

/// The digest recorded for a compared pair of scalar strings.
pub open spec fn scalar_pair_digest(old: Seq<char>, new: Seq<char>) -> u64 {
    fx_digest(str_block(old) + str_block(new))
}

/// The digest recorded for a compared pair of string sequences.
pub open spec fn sequence_pair_digest(old: Seq<Seq<char>>, new: Seq<Seq<char>>) -> u64 {
    fx_digest(seq_block(old) + seq_block(new))
}

/// The digest recorded for a single string sequence.
pub open spec fn sequence_digest(items: Seq<Seq<char>>) -> u64 {
    fx_digest(seq_block(items))
}

/// What `insert` reports for digest `d` against the previously recorded set `m`.
pub open spec fn memo_outcome(m: Set<u64>, d: u64) -> SetAdd {
    if m.contains(d) {
        SetAdd::AlreadyPresent
    } else {
        SetAdd::New
    }
}

/// Was an item added to a set?
#[derive(Clone, Copy, Debug, PartialEq, Eq, Structural)]
pub enum SetAdd {
    /// Nothing was added, the item was already present.
    AlreadyPresent,
    /// The item was newly-added.
    New,
}

fn push_len(buf: &mut Vec<u8>, n: usize)
    ensures
        final(buf)@ == old(buf)@ + spec_u64_to_le_bytes(n as u64),
{
    let mut bytes = u64_to_le_bytes(n as u64);
    buf.append(&mut bytes);
}

fn push_str_block(buf: &mut Vec<u8>, s: &str)
    ensures
        final(buf)@ == old(buf)@ + str_block(s@),
{
    let mut bytes = s.as_bytes_vec();
    push_len(buf, bytes.len());
    buf.append(&mut bytes);
    proof {
        assert(buf@ =~= old(buf)@ + str_block(s@));
    }
}

fn push_seq_block(buf: &mut Vec<u8>, items: &Vec<String>)
    ensures
        final(buf)@ == old(buf)@ + seq_block(str_views(items@)),
{
    push_len(buf, items.len());
    let ghost views = str_views(items@);
    proof {
        assert(views.take(0) =~= Seq::empty());
    }
    for i in 0..items.len()
        invariant
            views == str_views(items@),
            views.len() == items@.len(),
            buf@ == old(buf)@ + spec_u64_to_le_bytes(items@.len() as u64)
                + cat_blocks(views.take(i as int)),
    {
        push_str_block(buf, items[i].as_str());
        proof {
            assert(views.take(i + 1).drop_last() =~= views.take(i as int));
            assert(views.take(i + 1).last() == items@[i as int]@);
        }
    }
    proof {
        assert(views.take(views.len() as int) =~= views);
    }
}

/// Deduplication table for compared pairs of scalar strings.
pub struct FxStringDiffSet {
    table: HashSet<u64>,
}

impl View for FxStringDiffSet {
    type V = Set<u64>;

    closed spec fn view(&self) -> Set<u64> {
        self.table@
    }
}

impl FxStringDiffSet {
    pub fn with_capacity(capacity: usize) -> (s: Self)
        ensures
            s@ == Set::<u64>::empty(),
    {
        // Only digests are inserted, never the strings themselves.
        Self { table: HashSet::with_capacity(capacity) }
    }

    /// Records the pair's digest; reports whether it was already recorded.
    pub fn insert(&mut self, old_side: &str, new_side: &str) -> (r: SetAdd)
        ensures
            final(self)@ == old(self)@.insert(scalar_pair_digest(old_side@, new_side@)),
            r == memo_outcome(old(self)@, scalar_pair_digest(old_side@, new_side@)),
    {
        let mut buf: Vec<u8> = Vec::new();
        push_str_block(&mut buf, old_side);
        push_str_block(&mut buf, new_side);
        proof {
            assert(buf@ =~= str_block(old_side@) + str_block(new_side@));
        }
        let digest = fx_hash_bytes(&buf);
        if self.table.insert(digest) {
            SetAdd::New
        } else {
            SetAdd::AlreadyPresent
        }
    }
}

/// Deduplication table for compared pairs of string sequences.
pub struct FxStringsDiffSet {
    table: HashSet<u64>,
}

impl View for FxStringsDiffSet {
    type V = Set<u64>;

    closed spec fn view(&self) -> Set<u64> {
        self.table@
    }
}

impl FxStringsDiffSet {
    pub fn with_capacity(capacity: usize) -> (s: Self)
        ensures
            s@ == Set::<u64>::empty(),
    {
        // Only digests are inserted, never the sequences themselves.
        Self { table: HashSet::with_capacity(capacity) }
    }

    /// Records the pair's digest; reports whether it was already recorded.
    pub fn insert(&mut self, old_side: &Vec<String>, new_side: &Vec<String>) -> (r: SetAdd)
        ensures
            final(self)@ == old(self)@.insert(
                sequence_pair_digest(str_views(old_side@), str_views(new_side@)),
            ),
            r == memo_outcome(
                old(self)@,
                sequence_pair_digest(str_views(old_side@), str_views(new_side@)),
            ),
    {
        let mut buf: Vec<u8> = Vec::new();
        push_seq_block(&mut buf, old_side);
        push_seq_block(&mut buf, new_side);
        proof {
            assert(buf@ =~= seq_block(str_views(old_side@)) + seq_block(str_views(new_side@)));
        }
        let digest = fx_hash_bytes(&buf);
        if self.table.insert(digest) {
            SetAdd::New
        } else {
            SetAdd::AlreadyPresent
        }
    }
}

/// Deduplication table for single string sequences.
pub struct FxStringsSet {
    table: HashSet<u64>,
}

impl View for FxStringsSet {
    type V = Set<u64>;

    closed spec fn view(&self) -> Set<u64> {
        self.table@
    }
}

impl FxStringsSet {
    /// Records the sequence's digest; reports whether it was already recorded.
    pub fn insert(&mut self, items: &Vec<String>) -> (r: SetAdd)
        ensures
            final(self)@ == old(self)@.insert(sequence_digest(str_views(items@))),
            r == memo_outcome(old(self)@, sequence_digest(str_views(items@))),
    {
        let mut buf: Vec<u8> = Vec::new();
        push_seq_block(&mut buf, items);
        let digest = fx_hash_bytes(&buf);
        if self.table.insert(digest) {
            SetAdd::New
        } else {
            SetAdd::AlreadyPresent
        }
    }
}

/// Law: a scalar pair digest depends on the pair alone, so once a pair's
/// digest is recorded, recording the same pair again reports it already
/// present, at however many further places the pair occurs.
pub proof fn lemma_scalar_memo_dedup(m: Set<u64>, old_side: Seq<char>, new_side: Seq<char>)
    ensures
        memo_outcome(
            m.insert(scalar_pair_digest(old_side, new_side)),
            scalar_pair_digest(old_side, new_side),
        ) == SetAdd::AlreadyPresent,
{
}

/// Law: the same, for pairs of string sequences.
pub proof fn lemma_sequence_memo_dedup(m: Set<u64>, old_side: Seq<Seq<char>>, new_side: Seq<Seq<char>>)
    ensures
        memo_outcome(
            m.insert(sequence_pair_digest(old_side, new_side)),
            sequence_pair_digest(old_side, new_side),
        ) == SetAdd::AlreadyPresent,
{
}

} // verus!
