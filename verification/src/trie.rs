//! Leaf nodes in serialized MARF tries.

use vstd::prelude::*;

use crate::stats::{
    StatsView, ZeroValueStats, count_for, lemma_after_leaves_concat, lemma_after_none,
    lemma_after_push, lemma_fits_before,
};
use crate::stats_laws::law_trie_figures;
use crate::text::{append_decimal, decimal};

verus! {

broadcast use vstd::std_specs::hash::group_hash_axioms;

/// Size of a MARF value in bytes.
pub const MARF_VALUE_SIZE: usize = 40;

/// Size of a trie node's hash in bytes.
pub const TRIE_HASH_SIZE: usize = 32;

/// Node ID of a leaf.
pub const TRIE_NODE_ID_LEAF: u8 = 1;

/// A leaf node in a trie blob: the offset of its first byte, and the length of
/// its path.
pub struct Leaf {
    pub offset: nat,
    pub path_len: nat,
}

impl Leaf {
    /// The offset of the leaf's MARF value.
    pub open spec fn value_start(self) -> nat {
        self.offset + 2 + self.path_len
    }

    /// The offset just past the leaf.
    pub open spec fn end(self) -> nat {
        self.value_start() + MARF_VALUE_SIZE as nat
    }

    /// The bytes that the leaf takes in storage: the hash of the node, the
    /// node ID, the path's length, the path and the MARF value.
    pub open spec fn stored_bytes(self) -> nat {
        TRIE_HASH_SIZE as nat + 2 + self.path_len + MARF_VALUE_SIZE as nat
    }
}

/// `id` is the node ID of a leaf, whether or not its highest bit, which marks a
/// back-pointer, is set.
pub open spec fn is_leaf_id(id: u8) -> bool {
    id % 128 == TRIE_NODE_ID_LEAF
}

/// What a leaf at `pos` would be: its path length stands in the second byte.
pub open spec fn leaf_at(data: Seq<u8>, pos: nat) -> Leaf {
    Leaf { offset: pos, path_len: data[pos as int + 1] as nat }
}

/// A whole leaf stands at `pos`.
pub open spec fn is_leaf_at(data: Seq<u8>, pos: nat) -> bool {
    &&& pos + 2 <= data.len()
    &&& is_leaf_id(data[pos as int])
    &&& leaf_at(data, pos).end() <= data.len()
}

/// The leaves at or after `pos`, found from left to right: the search goes on
/// behind a leaf, and one byte further where there is none.
pub open spec fn leaves_from(data: Seq<u8>, pos: nat) -> Seq<Leaf>
    decreases data.len() - pos,
{
    if pos >= data.len() {
        Seq::empty()
    } else if is_leaf_at(data, pos) {
        seq![leaf_at(data, pos)] + leaves_from(data, leaf_at(data, pos).end())
    } else {
        leaves_from(data, pos + 1)
    }
}

/// The leaves of a trie blob, which starts with the root hash.
pub open spec fn leaves(data: Seq<u8>) -> Seq<Leaf> {
    leaves_from(data, TRIE_HASH_SIZE as nat)
}

/// The MARF value of the leaf `l`.
pub open spec fn leaf_value(data: Seq<u8>, l: Leaf) -> Seq<u8> {
    data.subrange(l.value_start() as int, l.end() as int)
}

/// Those of `ls` whose MARF value is `none_value`.
pub open spec fn holding(data: Seq<u8>, none_value: Seq<u8>, ls: Seq<Leaf>) -> Seq<Leaf> {
    ls.filter(|l: Leaf| leaf_value(data, l) == none_value)
}

/// The leaves of a trie blob whose MARF value is `none_value`.
pub open spec fn none_leaves(data: Seq<u8>, none_value: Seq<u8>) -> Seq<Leaf> {
    holding(data, none_value, leaves(data))
}

/// The line that reports a none-leaf.
pub open spec fn none_leaf_line(l: Leaf) -> Seq<char> {
    "  Found none-leaf at offset "@ + decimal(l.offset) + ", path_len="@ + decimal(l.path_len)
        + ", size="@ + decimal(l.stored_bytes())
}

/// The lines that report `ls`.
pub open spec fn none_leaf_lines(ls: Seq<Leaf>) -> Seq<Seq<char>> {
    ls.map_values(|l: Leaf| none_leaf_line(l))
}

/// The texts of `lines`.
pub open spec fn texts(lines: Seq<String>) -> Seq<Seq<char>> {
    lines.map_values(|s: String| s@)
}

/// `data` holds `value` at `start`.
fn value_at(data: &[u8], start: usize, value: &[u8; MARF_VALUE_SIZE]) -> (r: bool)
    requires
        start + MARF_VALUE_SIZE <= data@.len(),
    ensures
        r == (data@.subrange(start as int, start + MARF_VALUE_SIZE) == value@),
{
    let len: usize = data.len();
    let mut i: usize = 0;
    while i < MARF_VALUE_SIZE
        invariant
            i <= MARF_VALUE_SIZE,
            len == data@.len(),
            start + MARF_VALUE_SIZE <= len,
            forall|j: int| 0 <= j < i ==> data@[start + j] == value@[j],
        decreases MARF_VALUE_SIZE - i,
    {
        if data[start + i] != value[i] {
            assert(data@.subrange(start as int, start + MARF_VALUE_SIZE)[i as int]
                != value@[i as int]);
            return false;
        }
        i = i + 1;
    }
    assert(data@.subrange(start as int, start + MARF_VALUE_SIZE) =~= value@);
    true
}

/// Writes the line that reports a none-leaf.
fn report_none_leaf(offset: usize, path_len: usize, size: usize) -> (r: String)
    ensures
        r@ == "  Found none-leaf at offset "@ + decimal(offset as nat) + ", path_len="@ + decimal(
            path_len as nat,
        ) + ", size="@ + decimal(size as nat),
{
    let mut r = String::new();
    r.append("  Found none-leaf at offset ");
    append_decimal(&mut r, offset as u64);
    r.append(", path_len=");
    append_decimal(&mut r, path_len as u64);
    r.append(", size=");
    append_decimal(&mut r, size as u64);
    r
}

/// Counting one more leaf: what becomes of the leaves that hold the none-value.
proof fn lemma_holding_push(data: Seq<u8>, none_value: Seq<u8>, ls: Seq<Leaf>, l: Leaf)
    ensures
        holding(data, none_value, ls.push(l)) == (if leaf_value(data, l) == none_value {
            holding(data, none_value, ls).push(l)
        } else {
            holding(data, none_value, ls)
        }),
{
    let pred = |m: Leaf| leaf_value(data, m) == none_value;
    ls.lemma_filter_push(l, pred);
}

/// The figures after all leaves fit, so they fit after any first part of them.
proof fn lemma_fits_prefix(
    s: StatsView,
    data: Seq<u8>,
    none_value: Seq<u8>,
    first: Seq<Leaf>,
    rest: Seq<Leaf>,
)
    requires
        s.after_leaves(first + rest, holding(data, none_value, first + rest)).fits(),
    ensures
        s.after_leaves(first, holding(data, none_value, first)).fits(),
{
    let pred = |m: Leaf| leaf_value(data, m) == none_value;
    let t = s.after_leaves(first, holding(data, none_value, first));
    Seq::filter_distributes_over_add(first, rest, pred);
    lemma_after_leaves_concat(
        s,
        first,
        holding(data, none_value, first),
        rest,
        holding(data, none_value, rest),
    );
    lemma_fits_before(t, rest, holding(data, none_value, rest));
}

proof fn lemma_lines(lines: Seq<String>, nones: Seq<Leaf>, verbose: bool)
    requires
        texts(lines) == (if verbose {
            none_leaf_lines(nones)
        } else {
            Seq::empty()
        }),
    ensures
        !verbose ==> lines.len() == 0,
        verbose ==> lines.len() == nones.len(),
        verbose ==> forall|i: int|
            #![trigger lines[i]]
            0 <= i < lines.len() ==> {
                let l = nones[i];
                lines[i]@ == "  Found none-leaf at offset "@ + decimal(l.offset) + ", path_len="@
                    + decimal(l.path_len) + ", size="@ + decimal(74 + l.path_len)
            },
{
    assert(texts(lines).len() == lines.len());
    assert forall|i: int| #![trigger lines[i]] verbose && 0 <= i < lines.len() implies {
        let l = nones[i];
        lines[i]@ == "  Found none-leaf at offset "@ + decimal(l.offset) + ", path_len="@ + decimal(
            l.path_len,
        ) + ", size="@ + decimal(74 + l.path_len)
    } by {
        assert(texts(lines)[i] == none_leaf_lines(nones)[i]);
        assert(nones[i].stored_bytes() == 74 + nones[i].path_len);
    }
}

proof fn lemma_counts(
    before: ZeroValueStats,
    after: ZeroValueStats,
    data: Seq<u8>,
    none_value: Seq<u8>,
)
    requires
        after@.none_path_lengths == before@.after_trie(data, none_value).none_path_lengths,
    ensures
        forall|p: usize| #[trigger]
            after.none_path_lengths@.contains_key(p) <==> before.none_path_lengths@.contains_key(p)
                || none_leaves(data, none_value).filter(|l: Leaf| l.path_len == p).len() > 0,
        forall|p: usize| #[trigger]
            after.none_path_lengths@.contains_key(p) ==> after.none_path_lengths@[p] == (
            if before.none_path_lengths@.contains_key(p) {
                before.none_path_lengths@[p] as int
            } else {
                0
            }) + none_leaves(data, none_value).filter(|l: Leaf| l.path_len == p).len(),
{
    law_trie_figures(before@, data, none_value);
    assert forall|p: usize| #[trigger]
        after.none_path_lengths@.contains_key(p) == after@.none_path_lengths.contains_key(p) by {}
}

/// Scans a single trie blob for leaf nodes and counts none-values. Returns the
/// lines that report the none-leaves; there are none unless `verbose` is set.
pub fn scan_trie_blob(
    data: &[u8],
    none_marf_value: &[u8; MARF_VALUE_SIZE],
    stats: &mut ZeroValueStats,
    verbose: bool,
) -> (lines: Vec<String>)
    requires
        old(stats)@.after_trie(data@, none_marf_value@).fits(),
    ensures
        final(stats)@ == old(stats)@.after_trie(data@, none_marf_value@),
        texts(lines@) == (if verbose {
            none_leaf_lines(none_leaves(data@, none_marf_value@))
        } else {
            Seq::empty()
        }),
        final(stats).blocks_scanned == old(stats).blocks_scanned,
        final(stats).bytes_scanned == old(stats).bytes_scanned,
        final(stats).total_leaves == old(stats).total_leaves + leaves(data@).len(),
        final(stats).none_leaves == old(stats).none_leaves + none_leaves(
            data@,
            none_marf_value@,
        ).len(),
        final(stats).none_bytes == old(stats).none_bytes + none_leaves(
            data@,
            none_marf_value@,
        ).fold_left(0int, |n: int, l: Leaf| n + 74 + l.path_len),
        forall|p: usize| #[trigger]
            final(stats).none_path_lengths@.contains_key(p) <==> old(
                stats,
            ).none_path_lengths@.contains_key(p) || none_leaves(data@, none_marf_value@).filter(
                |l: Leaf| l.path_len == p,
            ).len() > 0,
        forall|p: usize| #[trigger]
            final(stats).none_path_lengths@.contains_key(p) ==> final(stats).none_path_lengths@[p]
                == (if old(stats).none_path_lengths@.contains_key(p) {
                old(stats).none_path_lengths@[p] as int
            } else {
                0
            }) + none_leaves(data@, none_marf_value@).filter(|l: Leaf| l.path_len == p).len(),
        !verbose ==> lines@.len() == 0,
        verbose ==> lines@.len() == none_leaves(data@, none_marf_value@).len(),
        verbose ==> forall|i: int|
            #![trigger lines@[i]]
            0 <= i < lines@.len() ==> {
                let l = none_leaves(data@, none_marf_value@)[i];
                lines@[i]@ == "  Found none-leaf at offset "@ + decimal(l.offset) + ", path_len="@
                    + decimal(l.path_len) + ", size="@ + decimal(74 + l.path_len)
            },
{
    let mut lines: Vec<String> = Vec::new();
    let len: usize = data.len();
    let ghost before = stats@;
    let ghost none_value = none_marf_value@;
    let ghost mut done: Seq<Leaf> = Seq::empty();
    proof {
        lemma_after_none(before);
        assert(holding(data@, none_value, done) =~= Seq::empty());
        assert(none_leaf_lines(holding(data@, none_value, done)) =~= Seq::empty());
        assert(texts(lines@) =~= Seq::empty());
        assert(leaves(data@) =~= done + leaves(data@));
        law_trie_figures(before, data@, none_value);
    }
    if len < TRIE_HASH_SIZE {
        return lines;
    }
    let mut pos: usize = TRIE_HASH_SIZE;  // Skip the root hash.
    while pos < len
        invariant
            len == data@.len(),
            pos <= len,
            none_value == none_marf_value@,
            before.after_trie(data@, none_value).fits(),
            leaves(data@) == done + leaves_from(data@, pos as nat),
            stats@ == before.after_leaves(done, holding(data@, none_value, done)),
            texts(lines@) == (if verbose {
                none_leaf_lines(holding(data@, none_value, done))
            } else {
                Seq::empty()
            }),
        decreases len - pos,
    {
        let id: u8 = data[pos];
        let node_id: u8 = id & 0x7F;  // Clear the back-pointer flag.
        assert(id & 0x7F == id % 128) by (bit_vector);
        if node_id == TRIE_NODE_ID_LEAF && len - pos >= 2 {
            let path_len: usize = data[pos + 1] as usize;
            if len - pos < 2 + path_len + MARF_VALUE_SIZE {
                // Not enough data: this is no leaf.
                pos = pos + 1;
            } else {
                let value_start: usize = pos + 2 + path_len;
                let leaf_end: usize = value_start + MARF_VALUE_SIZE;
                let ghost leaf = leaf_at(data@, pos as nat);
                let ghost next = done.push(leaf);
                let ghost rest = leaves_from(data@, leaf_end as nat);
                proof {
                    assert(leaf.end() == leaf_end);
                    assert(leaves(data@) =~= next + rest);
                    lemma_fits_prefix(before, data@, none_value, next, rest);
                    lemma_holding_push(data@, none_value, done, leaf);
                    lemma_after_push(before, done, holding(data@, none_value, done), leaf);
                }
                stats.total_leaves = stats.total_leaves + 1;
                if value_at(data, value_start, none_marf_value) {
                    stats.none_leaves = stats.none_leaves + 1;
                    let leaf_bytes: usize = TRIE_HASH_SIZE + 2 + path_len + MARF_VALUE_SIZE;
                    stats.none_bytes = stats.none_bytes + leaf_bytes as u64;
                    let seen: u64 = match stats.none_path_lengths.get(&path_len) {
                        Some(count) => *count,
                        None => 0,
                    };
                    let ghost counts = stats@.none_path_lengths;
                    proof {
                        assert(seen == count_for(counts, path_len));
                        let t = before.after_leaves(next, holding(data@, none_value, next));
                        assert(t.none_path_lengths == counts.insert(path_len, seen as nat + 1));
                        assert(t.none_path_lengths.contains_key(path_len));
                    }
                    stats.none_path_lengths.insert(path_len, seen + 1);
                    assert(stats@.none_path_lengths =~= counts.insert(path_len, seen as nat + 1));
                    if verbose {
                        let ghost reported = holding(data@, none_value, done);
                        let line = report_none_leaf(pos, path_len, leaf_bytes);
                        assert(texts(lines@.push(line)) =~= texts(lines@).push(line@));
                        assert(none_leaf_lines(reported.push(leaf)) =~= none_leaf_lines(
                            reported,
                        ).push(none_leaf_line(leaf)));
                        lines.push(line);
                    }
                }
                // Move past this leaf.
                pos = leaf_end;
                proof {
                    done = next;
                }
            }
        } else {
            pos = pos + 1;
        }
    }
    assert(done + leaves_from(data@, pos as nat) =~= done);
    proof {
        lemma_lines(lines@, none_leaves(data@, none_value), verbose);
        lemma_counts(*old(stats), *stats, data@, none_value);
    }
    lines
}

} // verus!
