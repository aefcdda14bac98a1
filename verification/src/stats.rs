//! Statistics about zero-values in MARF storage.

use std::collections::HashMap;
use vstd::prelude::*;

use crate::trie::{Leaf, leaves, none_leaves};

verus! {

broadcast use vstd::std_specs::hash::group_hash_axioms;

/// Statistics about zero-values in MARF storage.
#[derive(Debug)]
pub struct ZeroValueStats {
    /// Total number of blocks scanned.
    pub blocks_scanned: u64,
    /// Total bytes of trie data scanned.
    pub bytes_scanned: u64,
    /// Number of leaf nodes found.
    pub total_leaves: u64,
    /// Number of leaf nodes with none-value.
    pub none_leaves: u64,
    /// Bytes used by none-leaf nodes (including node hash overhead).
    pub none_bytes: u64,
    /// Distribution of path lengths in none-leaves.
    pub none_path_lengths: HashMap<usize, u64>,
}

/// The mathematical content of [`ZeroValueStats`].
pub struct StatsView {
    pub blocks_scanned: nat,
    pub bytes_scanned: nat,
    pub total_leaves: nat,
    pub none_leaves: nat,
    pub none_bytes: nat,
    pub none_path_lengths: Map<usize, nat>,
}

impl View for ZeroValueStats {
    type V = StatsView;

    open spec fn view(&self) -> StatsView {
        StatsView {
            blocks_scanned: self.blocks_scanned as nat,
            bytes_scanned: self.bytes_scanned as nat,
            total_leaves: self.total_leaves as nat,
            none_leaves: self.none_leaves as nat,
            none_bytes: self.none_bytes as nat,
            none_path_lengths: self.none_path_lengths@.map_values(|c: u64| c as nat),
        }
    }
}

/// The count that `counts` holds for `path_len`; a length that is not listed
/// has been seen zero times.
pub open spec fn count_for(counts: Map<usize, nat>, path_len: usize) -> nat {
    if counts.contains_key(path_len) {
        counts[path_len]
    } else {
        0
    }
}

/// How many of `ls` have a path of `path_len` bytes.
pub open spec fn with_path_len(ls: Seq<Leaf>, path_len: usize) -> nat {
    ls.filter(|l: Leaf| l.path_len == path_len).len()
}

/// `counts` after each leaf of `ls` has been counted under its path length.
pub open spec fn tallied(counts: Map<usize, nat>, ls: Seq<Leaf>) -> Map<usize, nat> {
    Map::new(
        |p: usize| counts.contains_key(p) || with_path_len(ls, p) > 0,
        |p: usize| count_for(counts, p) + with_path_len(ls, p),
    )
}

/// The bytes that `ls` occupy together with the hashes of their nodes.
pub open spec fn stored_bytes(ls: Seq<Leaf>) -> nat
    decreases ls.len(),
{
    if ls.len() == 0 {
        0
    } else {
        stored_bytes(ls.drop_last()) + ls.last().stored_bytes()
    }
}

impl StatsView {
    /// The figures before anything has been scanned.
    pub open spec fn zero() -> StatsView {
        StatsView {
            blocks_scanned: 0,
            bytes_scanned: 0,
            total_leaves: 0,
            none_leaves: 0,
            none_bytes: 0,
            none_path_lengths: Map::empty(),
        }
    }

    /// The figures after the leaves `found` have been counted, those of them
    /// that hold the none-value being `nones`.
    pub open spec fn after_leaves(self, found: Seq<Leaf>, nones: Seq<Leaf>) -> StatsView {
        StatsView {
            total_leaves: self.total_leaves + found.len(),
            none_leaves: self.none_leaves + nones.len(),
            none_bytes: self.none_bytes + stored_bytes(nones),
            none_path_lengths: tallied(self.none_path_lengths, nones),
            ..self
        }
    }

    /// The figures after the trie blob `data` has been searched for leaves.
    pub open spec fn after_trie(self, data: Seq<u8>, none_value: Seq<u8>) -> StatsView {
        self.after_leaves(leaves(data), none_leaves(data, none_value))
    }

    /// The figures after a block whose trie blob is `data` has been scanned.
    pub open spec fn after_block(self, data: Seq<u8>, none_value: Seq<u8>) -> StatsView {
        StatsView {
            blocks_scanned: self.blocks_scanned + 1,
            bytes_scanned: self.bytes_scanned + data.len(),
            ..self
        }.after_trie(data, none_value)
    }

    /// The figures after the blocks with the trie blobs `blobs` have been
    /// scanned, one after the other.
    pub open spec fn after_blocks(self, blobs: Seq<Seq<u8>>, none_value: Seq<u8>) -> StatsView {
        blobs.fold_left(self, |s: StatsView, data: Seq<u8>| s.after_block(data, none_value))
    }

    /// There is room in every counter for a block of `len` bytes, whatever the
    /// bytes are.
    pub open spec fn has_room_for(self, len: nat) -> bool {
        &&& self.blocks_scanned + 1 <= u64::MAX
        &&& self.bytes_scanned + len <= u64::MAX
        &&& self.total_leaves + len <= u64::MAX
        &&& self.none_leaves + len <= u64::MAX
        &&& self.none_bytes + 2 * len <= u64::MAX
    }

    /// Every figure fits its counter.
    pub open spec fn fits(self) -> bool {
        &&& self.blocks_scanned <= u64::MAX
        &&& self.bytes_scanned <= u64::MAX
        &&& self.total_leaves <= u64::MAX
        &&& self.none_leaves <= u64::MAX
        &&& self.none_bytes <= u64::MAX
        &&& forall|p: usize| #[trigger]
            self.none_path_lengths.contains_key(p) ==> self.none_path_lengths[p] <= u64::MAX
    }
}

impl Default for ZeroValueStats {
    fn default() -> (r: ZeroValueStats)
        ensures
            r@ == StatsView::zero(),
            r.blocks_scanned == 0,
            r.bytes_scanned == 0,
            r.total_leaves == 0,
            r.none_leaves == 0,
            r.none_bytes == 0,
            r.none_path_lengths@ == Map::<usize, u64>::empty(),
    {
        let r = ZeroValueStats {
            blocks_scanned: 0,
            bytes_scanned: 0,
            total_leaves: 0,
            none_leaves: 0,
            none_bytes: 0,
            none_path_lengths: HashMap::new(),
        };
        assert(r@.none_path_lengths =~= StatsView::zero().none_path_lengths);
        r
    }
}

impl ZeroValueStats {
    /// Whether a block of `len` bytes can be scanned without any counter
    /// running over.
    pub fn has_room_for(&self, len: u64) -> (r: bool)
        ensures
            r == self@.has_room_for(len as nat),
            r == (self.blocks_scanned < u64::MAX && self.bytes_scanned + len <= u64::MAX
                && self.total_leaves + len <= u64::MAX && self.none_leaves + len <= u64::MAX
                && self.none_bytes + 2 * len <= u64::MAX),
    {
        self.blocks_scanned < u64::MAX && len <= u64::MAX - self.bytes_scanned && len <= u64::MAX
            - self.total_leaves && len <= u64::MAX - self.none_leaves && len <= (u64::MAX
            - self.none_bytes) / 2
    }
}

pub proof fn lemma_stored_bytes_concat(a: Seq<Leaf>, b: Seq<Leaf>)
    ensures
        stored_bytes(a + b) == stored_bytes(a) + stored_bytes(b),
    decreases b.len(),
{
    if b.len() == 0 {
        assert(a + b =~= a);
    } else {
        lemma_stored_bytes_concat(a, b.drop_last());
        assert((a + b).drop_last() =~= a + b.drop_last());
    }
}

pub proof fn lemma_with_path_len_concat(a: Seq<Leaf>, b: Seq<Leaf>, p: usize)
    ensures
        with_path_len(a + b, p) == with_path_len(a, p) + with_path_len(b, p),
{
    Seq::filter_distributes_over_add(a, b, |l: Leaf| l.path_len == p);
}

pub proof fn lemma_after_leaves_concat(
    s: StatsView,
    a: Seq<Leaf>,
    na: Seq<Leaf>,
    b: Seq<Leaf>,
    nb: Seq<Leaf>,
)
    ensures
        s.after_leaves(a, na).after_leaves(b, nb) == s.after_leaves(a + b, na + nb),
{
    lemma_stored_bytes_concat(na, nb);
    assert forall|p: usize| #[trigger]
        with_path_len(na + nb, p) == with_path_len(na, p) + with_path_len(nb, p) by {
        lemma_with_path_len_concat(na, nb, p);
    }
    assert(s.after_leaves(a, na).after_leaves(b, nb).none_path_lengths =~= s.after_leaves(
        a + b,
        na + nb,
    ).none_path_lengths);
}

pub proof fn lemma_after_none(s: StatsView)
    ensures
        s.after_leaves(Seq::empty(), Seq::empty()) == s,
{
    assert(tallied(s.none_path_lengths, Seq::empty()) =~= s.none_path_lengths);
}

/// What one more leaf changes, as a none-leaf and as another.
pub proof fn lemma_after_push(s: StatsView, found: Seq<Leaf>, nones: Seq<Leaf>, l: Leaf)
    requires
        l.path_len <= usize::MAX,
    ensures
        ({
            let t = s.after_leaves(found, nones);
            let p = l.path_len as usize;
            &&& s.after_leaves(found.push(l), nones) == (StatsView {
                total_leaves: t.total_leaves + 1,
                ..t
            })
            &&& s.after_leaves(found.push(l), nones.push(l)) == (StatsView {
                total_leaves: t.total_leaves + 1,
                none_leaves: t.none_leaves + 1,
                none_bytes: t.none_bytes + l.stored_bytes(),
                none_path_lengths: t.none_path_lengths.insert(
                    p,
                    count_for(t.none_path_lengths, p) + 1,
                ),
                ..t
            })
        }),
{
    let t = s.after_leaves(found, nones);
    let p = l.path_len as usize;
    assert(nones.push(l).drop_last() =~= nones);
    assert forall|q: usize| #[trigger]
        with_path_len(nones.push(l), q) == with_path_len(nones, q) + (if q == p {
            1nat
        } else {
            0nat
        }) by {
        nones.lemma_filter_push(l, |m: Leaf| m.path_len == q);
    }
    assert(tallied(s.none_path_lengths, nones.push(l)) =~= t.none_path_lengths.insert(
        p,
        count_for(t.none_path_lengths, p) + 1,
    ));
}

/// Counting more leaves makes no figure smaller.
pub proof fn lemma_fits_before(s: StatsView, found: Seq<Leaf>, nones: Seq<Leaf>)
    requires
        s.after_leaves(found, nones).fits(),
    ensures
        s.fits(),
{
    let t = s.after_leaves(found, nones);
    assert forall|p: usize| #[trigger] s.none_path_lengths.contains_key(p) implies
        s.none_path_lengths[p] <= u64::MAX by {
        assert(t.none_path_lengths.contains_key(p));
    }
}

} // verus!
