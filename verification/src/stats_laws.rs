//! What holds of the statistics whatever has been scanned.

use vstd::prelude::*;

use crate::stats::{
    StatsView, count_for, lemma_after_none, lemma_after_push, lemma_stored_bytes_concat,
    stored_bytes, tallied,
};
use crate::trie::{Leaf, leaf_value, leaves, none_leaves};
use crate::trie_laws::{
    extent, law_leaves_fit_blob, law_leaves_laid_out, law_no_leaf_without_id,
};

verus! {

/// The none-leaves that `counts` lists under path lengths below `n`.
pub open spec fn listed_below(counts: Map<usize, nat>, n: nat) -> nat
    decreases n,
{
    if n == 0 {
        0
    } else {
        listed_below(counts, (n - 1) as nat) + count_for(counts, (n - 1) as usize)
    }
}

/// The bytes of the paths of the none-leaves that `counts` lists under path
/// lengths below `n`.
pub open spec fn path_bytes_below(counts: Map<usize, nat>, n: nat) -> nat
    decreases n,
{
    if n == 0 {
        0
    } else {
        path_bytes_below(counts, (n - 1) as nat) + (n - 1) as nat * count_for(
            counts,
            (n - 1) as usize,
        )
    }
}

/// The figures agree with one another.
///
/// Path lengths are single bytes, and only lengths that occur are listed. The
/// distribution accounts for every none-leaf, and it accounts for the bytes as
/// well: each none-leaf takes 74 bytes besides its path. None-leaves are leaves.
pub open spec fn consistent(s: StatsView) -> bool {
    &&& forall|p: usize| #[trigger]
        s.none_path_lengths.contains_key(p) ==> p < 256 && s.none_path_lengths[p] > 0
    &&& s.none_leaves == listed_below(s.none_path_lengths, 256)
    &&& s.none_bytes == 74 * s.none_leaves + path_bytes_below(s.none_path_lengths, 256)
    &&& s.none_leaves <= s.total_leaves
}

/// The leaves lie in the bytes that have been scanned: each takes 42 bytes or
/// more, and apart from the 32 bytes of the node's hash, which is counted for
/// each none-leaf, none-leaves take no more than there is.
pub open spec fn within_scanned(s: StatsView) -> bool {
    &&& 42 * s.total_leaves <= s.bytes_scanned
    &&& s.none_bytes <= s.bytes_scanned + 32 * s.none_leaves
}

proof fn lemma_below_empty(n: nat)
    ensures
        listed_below(Map::empty(), n) == 0,
        path_bytes_below(Map::empty(), n) == 0,
    decreases n,
{
    if n > 0 {
        lemma_below_empty((n - 1) as nat);
        assert((n - 1) * 0 == 0) by (nonlinear_arith);
    }
}

/// Before anything has been scanned, the figures agree.
pub proof fn law_zero_consistent()
    ensures
        consistent(StatsView::zero()),
        within_scanned(StatsView::zero()),
{
    lemma_below_empty(256);
}

proof fn lemma_below_insert(counts: Map<usize, nat>, p: usize, n: nat)
    requires
        n <= 256,
    ensures
        ({
            let more = counts.insert(p, count_for(counts, p) + 1);
            &&& listed_below(more, n) == listed_below(counts, n) + (if p < n {
                1nat
            } else {
                0nat
            })
            &&& path_bytes_below(more, n) == path_bytes_below(counts, n) + (if p < n {
                p as nat
            } else {
                0nat
            })
        }),
    decreases n,
{
    if n > 0 {
        let m = (n - 1) as nat;
        lemma_below_insert(counts, p, m);
        let c = count_for(counts, m as usize);
        assert(m * (c + 1) == m * c + m) by (nonlinear_arith);
    }
}

proof fn lemma_consistent_push(s: StatsView, found: Seq<Leaf>, nones: Seq<Leaf>)
    requires
        consistent(s),
        nones.len() <= found.len(),
        forall|i: int| 0 <= i < nones.len() ==> (#[trigger] nones[i]).path_len < 256,
    ensures
        consistent(s.after_leaves(found, nones)),
    decreases nones.len(),
{
    if nones.len() == 0 {
        assert(nones =~= Seq::empty());
        lemma_after_none(s);
        assert(s.after_leaves(found, nones).none_path_lengths == s.none_path_lengths);
    } else {
        let l = nones.last();
        let f = found.drop_last();
        let n = nones.drop_last();
        assert(nones[nones.len() - 1].path_len < 256);
        assert forall|i: int| 0 <= i < n.len() implies (#[trigger] n[i]).path_len < 256 by {
            assert(nones[i].path_len < 256);
        }
        lemma_consistent_push(s, f, n);
        lemma_after_push(s, f, n, l);
        assert(n.push(l) =~= nones);
        let t = s.after_leaves(f, n);
        let u = s.after_leaves(f.push(l), n.push(l));
        lemma_below_insert(t.none_path_lengths, l.path_len as usize, 256);
        assert(u == s.after_leaves(found, nones));
    }
}

proof fn lemma_short_paths(data: Seq<u8>, none_value: Seq<u8>)
    ensures
        none_leaves(data, none_value).len() <= leaves(data).len(),
        forall|i: int|
            0 <= i < none_leaves(data, none_value).len() ==> (#[trigger] none_leaves(
                data,
                none_value,
            )[i]).path_len < 256,
{
    let pred = |l: Leaf| leaf_value(data, l) == none_value;
    let nones = none_leaves(data, none_value);
    leaves(data).lemma_filter_len(pred);
    law_leaves_laid_out(data);
    assert forall|i: int| 0 <= i < nones.len() implies (#[trigger] nones[i]).path_len < 256 by {
        assert(nones.contains(nones[i]));
        leaves(data).lemma_filter_contains_rev(pred, nones[i]);
    }
}

/// Scanning a block keeps the figures in agreement.
pub proof fn law_scan_keeps_consistent(s: StatsView, data: Seq<u8>, none_value: Seq<u8>)
    requires
        consistent(s),
    ensures
        consistent(s.after_trie(data, none_value)),
        consistent(s.after_block(data, none_value)),
{
    let started = StatsView {
        blocks_scanned: s.blocks_scanned + 1,
        bytes_scanned: s.bytes_scanned + data.len(),
        ..s
    };
    lemma_short_paths(data, none_value);
    lemma_consistent_push(s, leaves(data), none_leaves(data, none_value));
    lemma_consistent_push(started, leaves(data), none_leaves(data, none_value));
}

proof fn lemma_extent_stored(ls: Seq<Leaf>)
    ensures
        stored_bytes(ls) == extent(ls) + 32 * ls.len(),
        42 * ls.len() <= extent(ls),
    decreases ls.len(),
{
    if ls.len() > 0 {
        let one = seq![ls.first()];
        lemma_extent_stored(ls.drop_first());
        assert(ls =~= one + ls.drop_first());
        lemma_stored_bytes_concat(one, ls.drop_first());
        reveal_with_fuel(stored_bytes, 2);
        assert(one.drop_last() =~= Seq::empty());
    }
}

proof fn lemma_stored_filter(ls: Seq<Leaf>, pred: spec_fn(Leaf) -> bool)
    ensures
        ls.filter(pred).len() <= ls.len(),
        stored_bytes(ls.filter(pred)) + 32 * (ls.len() - ls.filter(pred).len()) <= stored_bytes(
            ls,
        ),
    decreases ls.len(),
{
    reveal(Seq::filter);
    if ls.len() > 0 {
        let l = ls.last();
        let short = ls.drop_last().filter(pred);
        lemma_stored_filter(ls.drop_last(), pred);
        assert(short.push(l).drop_last() =~= short);
    }
}

/// How much one blob can add: each leaf takes 42 bytes of it or more, and its
/// none-leaves take no more than the blob and 32 bytes each.
pub proof fn law_blob_bounds(data: Seq<u8>, none_value: Seq<u8>)
    ensures
        42 * leaves(data).len() <= data.len(),
        none_leaves(data, none_value).len() <= leaves(data).len(),
        stored_bytes(none_leaves(data, none_value)) <= data.len() + 32 * none_leaves(
            data,
            none_value,
        ).len(),
{
    law_leaves_fit_blob(data);
    lemma_extent_stored(leaves(data));
    lemma_stored_filter(leaves(data), |l: Leaf| leaf_value(data, l) == none_value);
}

/// Scanning a block keeps the leaves within the bytes that have been scanned.
pub proof fn law_scan_keeps_within_scanned(s: StatsView, data: Seq<u8>, none_value: Seq<u8>)
    requires
        within_scanned(s),
    ensures
        within_scanned(s.after_block(data, none_value)),
{
    law_blob_bounds(data, none_value);
}

proof fn lemma_count_within(counts: Map<usize, nat>, p: usize, n: nat)
    requires
        p < n <= 256,
    ensures
        count_for(counts, p) <= listed_below(counts, n),
    decreases n,
{
    if p < n - 1 {
        lemma_count_within(counts, p, (n - 1) as nat);
    }
}

/// Where there is room for a block of some length, a block of that length can
/// be scanned, whatever its bytes.
pub proof fn law_room_suffices(s: StatsView, data: Seq<u8>, none_value: Seq<u8>)
    requires
        consistent(s),
        s.has_room_for(data.len()),
    ensures
        s.after_block(data, none_value).fits(),
{
    let t = s.after_block(data, none_value);
    law_blob_bounds(data, none_value);
    law_scan_keeps_consistent(s, data, none_value);
    assert forall|p: usize| #[trigger] t.none_path_lengths.contains_key(p) implies
        t.none_path_lengths[p] <= u64::MAX by {
        lemma_count_within(t.none_path_lengths, p, 256);
    }
}

/// After any number of blocks, from the start, the figures agree with one
/// another, and so many blocks and bytes have been scanned as there were.
pub proof fn law_run_consistent(blobs: Seq<Seq<u8>>, none_value: Seq<u8>)
    ensures
        ({
            let s = StatsView::zero().after_blocks(blobs, none_value);
            &&& consistent(s)
            &&& within_scanned(s)
            &&& s.blocks_scanned == blobs.len()
            &&& s.bytes_scanned == blobs.flatten().len()
        }),
    decreases blobs.len(),
{
    if blobs.len() == 0 {
        law_zero_consistent();
    } else {
        let t = StatsView::zero().after_blocks(blobs.drop_last(), none_value);
        law_run_consistent(blobs.drop_last(), none_value);
        law_scan_keeps_consistent(t, blobs.last(), none_value);
        law_scan_keeps_within_scanned(t, blobs.last(), none_value);
        assert(blobs.drop_last().push(blobs.last()) =~= blobs);
        blobs.drop_last().lemma_flatten_push(blobs.last());
    }
}

proof fn lemma_blocks_commute(s: StatsView, a: Seq<u8>, b: Seq<u8>, none_value: Seq<u8>)
    ensures
        s.after_block(a, none_value).after_block(b, none_value) == s.after_block(
            b,
            none_value,
        ).after_block(a, none_value),
{
    let na = none_leaves(a, none_value);
    let nb = none_leaves(b, none_value);
    let ab = tallied(tallied(s.none_path_lengths, na), nb);
    let ba = tallied(tallied(s.none_path_lengths, nb), na);
    assert(ab =~= ba);
}

/// The order of the blocks does not matter: the same blobs, scanned in any
/// order, give the same figures.
pub proof fn law_order_irrelevant(
    s: StatsView,
    blobs: Seq<Seq<u8>>,
    reordered: Seq<Seq<u8>>,
    none_value: Seq<u8>,
)
    requires
        blobs.to_multiset() == reordered.to_multiset(),
    ensures
        s.after_blocks(blobs, none_value) == s.after_blocks(reordered, none_value),
{
    let f = |t: StatsView, data: Seq<u8>| t.after_block(data, none_value);
    assert forall|a: Seq<u8>, b: Seq<u8>, t: StatsView| #[trigger]
        f(f(t, a), b) == f(f(t, b), a) by {
        lemma_blocks_commute(t, a, b, none_value);
    }
    vstd::seq_lib::lemma_fold_left_permutation(blobs, reordered, f, s);
}

proof fn lemma_stored_bytes_summed(ls: Seq<Leaf>)
    ensures
        stored_bytes(ls) == ls.fold_left(0int, |n: int, l: Leaf| n + 74 + l.path_len),
    decreases ls.len(),
{
    reveal_with_fuel(Seq::fold_left, 2);
    if ls.len() > 0 {
        lemma_stored_bytes_summed(ls.drop_last());
    }
}

/// What the search of a blob adds to each figure: its leaves to the leaves, its
/// none-leaves to the none-leaves, 74 bytes and the path for each none-leaf to
/// the bytes, and each none-leaf to the count for its path length. Blocks and
/// bytes scanned stay as they are.
pub proof fn law_trie_figures(s: StatsView, data: Seq<u8>, none_value: Seq<u8>)
    ensures
        ({
            let t = s.after_trie(data, none_value);
            let nones = none_leaves(data, none_value);
            &&& t.blocks_scanned == s.blocks_scanned
            &&& t.bytes_scanned == s.bytes_scanned
            &&& t.total_leaves == s.total_leaves + leaves(data).len()
            &&& t.none_leaves == s.none_leaves + nones.len()
            &&& t.none_bytes == s.none_bytes + nones.fold_left(
                0int,
                |n: int, l: Leaf| n + 74 + l.path_len,
            )
            &&& forall|p: usize| #[trigger]
                t.none_path_lengths.contains_key(p) <==> s.none_path_lengths.contains_key(p)
                    || nones.filter(|l: Leaf| l.path_len == p).len() > 0
            &&& forall|p: usize| #[trigger]
                t.none_path_lengths.contains_key(p) ==> t.none_path_lengths[p] == (
                if s.none_path_lengths.contains_key(p) {
                    s.none_path_lengths[p]
                } else {
                    0
                }) + nones.filter(|l: Leaf| l.path_len == p).len()
        }),
{
    lemma_stored_bytes_summed(none_leaves(data, none_value));
}

/// What the scan of a block adds to each figure: one block, the bytes of its
/// blob, and what the search of the blob adds, whatever the blob's length.
pub proof fn law_block_figures(s: StatsView, data: Seq<u8>, none_value: Seq<u8>)
    ensures
        ({
            let t = s.after_block(data, none_value);
            let nones = none_leaves(data, none_value);
            &&& t.blocks_scanned == s.blocks_scanned + 1
            &&& t.bytes_scanned == s.bytes_scanned + data.len()
            &&& t.total_leaves == s.total_leaves + leaves(data).len()
            &&& t.none_leaves == s.none_leaves + nones.len()
            &&& t.none_bytes == s.none_bytes + nones.fold_left(
                0int,
                |n: int, l: Leaf| n + 74 + l.path_len,
            )
            &&& forall|p: usize| #[trigger]
                t.none_path_lengths.contains_key(p) <==> s.none_path_lengths.contains_key(p)
                    || nones.filter(|l: Leaf| l.path_len == p).len() > 0
            &&& forall|p: usize| #[trigger]
                t.none_path_lengths.contains_key(p) ==> t.none_path_lengths[p] == (
                if s.none_path_lengths.contains_key(p) {
                    s.none_path_lengths[p]
                } else {
                    0
                }) + nones.filter(|l: Leaf| l.path_len == p).len()
        }),
{
    let started = StatsView {
        blocks_scanned: s.blocks_scanned + 1,
        bytes_scanned: s.bytes_scanned + data.len(),
        ..s
    };
    law_trie_figures(started, data, none_value);
}

/// A blob without the bytes 1 and 0x81 behind its root hash leaves all figures
/// as they are.
pub proof fn law_blob_without_ids_adds_nothing(s: StatsView, data: Seq<u8>, none_value: Seq<u8>)
    requires
        forall|i: int| 32 <= i < data.len() ==> #[trigger] data[i] != 0x01 && data[i] != 0x81,
    ensures
        s.after_trie(data, none_value) == s,
        s.after_block(data, none_value).total_leaves == s.total_leaves,
        s.after_block(data, none_value).none_leaves == s.none_leaves,
        s.after_block(data, none_value).none_bytes == s.none_bytes,
{
    law_no_leaf_without_id(data);
    lemma_short_paths(data, none_value);
    assert(leaves(data) =~= Seq::empty());
    assert(none_leaves(data, none_value) =~= Seq::empty());
    lemma_after_none(s);
}

/// Over any run the figures are sums over the blobs: so many blocks and bytes as
/// there are, the leaves and the none-leaves of each blob, and 74 bytes and the
/// path for each none-leaf.
pub proof fn law_run_figures(s: StatsView, blobs: Seq<Seq<u8>>, none_value: Seq<u8>)
    ensures
        ({
            let t = s.after_blocks(blobs, none_value);
            &&& t.blocks_scanned == s.blocks_scanned + blobs.len()
            &&& t.bytes_scanned == s.bytes_scanned + blobs.flatten().len()
            &&& t.total_leaves == s.total_leaves + blobs.fold_left(
                0int,
                |n: int, data: Seq<u8>| n + leaves(data).len(),
            )
            &&& t.none_leaves == s.none_leaves + blobs.fold_left(
                0int,
                |n: int, data: Seq<u8>| n + none_leaves(data, none_value).len(),
            )
            &&& t.none_bytes == s.none_bytes + blobs.fold_left(
                0int,
                |n: int, data: Seq<u8>|
                    n + none_leaves(data, none_value).fold_left(
                        0int,
                        |m: int, l: Leaf| m + 74 + l.path_len,
                    ),
            )
        }),
    decreases blobs.len(),
{
    reveal_with_fuel(Seq::fold_left, 2);
    if blobs.len() == 0 {
    } else {
        let earlier = blobs.drop_last();
        law_run_figures(s, earlier, none_value);
        law_block_figures(s.after_blocks(earlier, none_value), blobs.last(), none_value);
        assert(earlier.push(blobs.last()) =~= blobs);
        earlier.lemma_flatten_push(blobs.last());
    }
}

/// Over any run, the count for a path length is what it was at first and the sum
/// over the blobs of their none-leaves with a path of that length; a length is
/// listed if it was at first, or if such a none-leaf was found.
pub proof fn law_run_path_lengths(
    s: StatsView,
    blobs: Seq<Seq<u8>>,
    none_value: Seq<u8>,
    p: usize,
)
    ensures
        ({
            let t = s.after_blocks(blobs, none_value);
            let found = blobs.fold_left(
                0int,
                |n: int, data: Seq<u8>|
                    n + none_leaves(data, none_value).filter(|l: Leaf| l.path_len == p).len(),
            );
            &&& found >= 0
            &&& t.none_path_lengths.contains_key(p) <==> s.none_path_lengths.contains_key(p)
                || found > 0
            &&& t.none_path_lengths.contains_key(p) ==> t.none_path_lengths[p] == (
            if s.none_path_lengths.contains_key(p) {
                s.none_path_lengths[p]
            } else {
                0
            }) + found
        }),
    decreases blobs.len(),
{
    reveal_with_fuel(Seq::fold_left, 2);
    if blobs.len() == 0 {
    } else {
        let earlier = blobs.drop_last();
        let before = s.after_blocks(earlier, none_value);
        law_run_path_lengths(s, earlier, none_value, p);
        law_block_figures(before, blobs.last(), none_value);
        assert(s.after_blocks(blobs, none_value) == before.after_block(blobs.last(), none_value));
        assert(before.after_block(blobs.last(), none_value).none_path_lengths.contains_key(p)
            <==> before.none_path_lengths.contains_key(p) || none_leaves(
            blobs.last(),
            none_value,
        ).filter(|l: Leaf| l.path_len == p).len() > 0);
    }
}

/// From the start, the leaves of a run are the leaves of each of its blobs, and
/// the none-leaves are the none-leaves of each.
pub proof fn law_run_sums(blobs: Seq<Seq<u8>>, none_value: Seq<u8>)
    ensures
        StatsView::zero().after_blocks(blobs, none_value).total_leaves == blobs.fold_left(
            0int,
            |n: int, data: Seq<u8>| n + leaves(data).len(),
        ),
        StatsView::zero().after_blocks(blobs, none_value).none_leaves == blobs.fold_left(
            0int,
            |n: int, data: Seq<u8>| n + none_leaves(data, none_value).len(),
        ),
        StatsView::zero().after_blocks(blobs, none_value).none_bytes == blobs.fold_left(
            0int,
            |n: int, data: Seq<u8>|
                n + none_leaves(data, none_value).fold_left(
                    0int,
                    |m: int, l: Leaf| m + 74 + l.path_len,
                ),
        ),
{
    law_run_figures(StatsView::zero(), blobs, none_value);
}

/// The figures fit if and only if each of them is at most `u64::MAX`.
pub proof fn law_fits(s: StatsView)
    ensures
        s.fits() <==> {
            &&& s.blocks_scanned <= 0xffff_ffff_ffff_ffff
            &&& s.bytes_scanned <= 0xffff_ffff_ffff_ffff
            &&& s.total_leaves <= 0xffff_ffff_ffff_ffff
            &&& s.none_leaves <= 0xffff_ffff_ffff_ffff
            &&& s.none_bytes <= 0xffff_ffff_ffff_ffff
            &&& forall|p: usize| #[trigger]
                s.none_path_lengths.contains_key(p) ==> s.none_path_lengths[p]
                    <= 0xffff_ffff_ffff_ffff
        },
{
}

/// A run can be scanned to its end if its blobs hold no more than half of
/// `u64::MAX` bytes together, and there are no more than `u64::MAX` of them.
pub proof fn law_run_fits(blobs: Seq<Seq<u8>>, none_value: Seq<u8>)
    requires
        blobs.len() <= u64::MAX,
        2 * blobs.flatten().len() <= u64::MAX,
    ensures
        StatsView::zero().after_blocks(blobs, none_value).fits(),
{
    let s = StatsView::zero().after_blocks(blobs, none_value);
    law_run_consistent(blobs, none_value);
    assert forall|p: usize| #[trigger] s.none_path_lengths.contains_key(p) implies
        s.none_path_lengths[p] <= u64::MAX by {
        lemma_count_within(s.none_path_lengths, p, 256);
    }
}

} // verus!
