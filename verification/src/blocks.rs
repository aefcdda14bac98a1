//! Which blocks are scanned, and what scanning one does.

use vstd::prelude::*;

use crate::stats::{StatsView, ZeroValueStats};
use crate::text::{append_decimal, decimal};
use crate::trie::{
    Leaf, MARF_VALUE_SIZE, leaves, none_leaf_lines, none_leaves, scan_trie_blob, texts,
};

verus! {

/// A block whose trie blob stands in the external blobs file: where the blob
/// starts, and its length.
#[derive(Clone, Copy, Debug, PartialEq, Eq, Structural)]
pub struct BlockEntry {
    pub block_id: u32,
    pub offset: u64,
    pub length: u64,
}

/// A signed database integer read as unsigned: a negative one stands for a
/// number in the upper half of the range.
pub open spec fn unsigned(n: i64) -> int {
    if n >= 0 {
        n as int
    } else {
        n + 0x1_0000_0000_0000_0000
    }
}

/// Reads a block entry from the columns of its database row.
pub fn block_entry(block_id: u32, external_offset: i64, external_length: i64) -> (r: BlockEntry)
    ensures
        r.block_id == block_id,
        r.offset == unsigned(external_offset),
        r.length == unsigned(external_length),
        external_offset >= 0 ==> r.offset == external_offset,
        external_offset < 0 ==> r.offset == external_offset + 0x1_0000_0000_0000_0000,
        external_length >= 0 ==> r.length == external_length,
        external_length < 0 ==> r.length == external_length + 0x1_0000_0000_0000_0000,
{
    assert(external_offset < 0 ==> external_offset as u64 == external_offset
        + 0x1_0000_0000_0000_0000) by (bit_vector);
    assert(external_length < 0 ==> external_length as u64 == external_length
        + 0x1_0000_0000_0000_0000) by (bit_vector);
    BlockEntry { block_id, offset: external_offset as u64, length: external_length as u64 }
}

/// How far apart the blocks of a sample of `n` out of `total` stand.
pub open spec fn sample_step(total: nat, n: nat) -> int {
    if n < total {
        total as int / n as int
    } else {
        1
    }
}

/// Where the `i`-th block of a sample of `n` out of `total` stands.
pub open spec fn sample_place(total: nat, n: nat, i: int) -> int {
    i * sample_step(total, n)
}

/// The blocks to scan. Without a sample size that is all of them, and likewise
/// where there are no more than the sample size; otherwise as many as the
/// sample size says, from the first on, an equal step apart.
pub open spec fn selected(blocks: Seq<BlockEntry>, sample_size: Option<usize>) -> Seq<BlockEntry> {
    match sample_size {
        Some(n) if n < blocks.len() => Seq::new(
            n as nat,
            |i: int| blocks[sample_place(blocks.len(), n as nat, i)],
        ),
        _ => blocks,
    }
}

/// Picks the blocks to scan: all of them, or a sample that is spread evenly.
///
/// A sample of size zero cannot be taken from blocks that are there.
pub fn select_blocks(blocks: Vec<BlockEntry>, sample_size: Option<usize>) -> (r: Vec<BlockEntry>)
    requires
        sample_size == Some(0usize) ==> blocks@.len() == 0,
    ensures
        r@ == selected(blocks@, sample_size),
        match sample_size {
            Some(n) if n < blocks@.len() => {
                &&& r@.len() == n
                &&& forall|i: int|
                    0 <= i < n ==> #[trigger] r@[i] == blocks@[i * (blocks@.len() as int
                        / n as int)]
            },
            _ => r@ == blocks@,
        },
{
    let total_blocks: usize = blocks.len();
    match sample_size {
        Some(n) => {
            if n >= total_blocks {
                return blocks;
            }
            let step: usize = total_blocks / n;
            let mut r: Vec<BlockEntry> = Vec::new();
            let mut at: usize = 0;
            assert(n * step <= total_blocks) by (nonlinear_arith)
                requires
                    n > 0,
                    step == total_blocks / n,
            ;
            while r.len() < n
                invariant
                    total_blocks == blocks@.len(),
                    r@.len() <= n,
                    0 < n < total_blocks,
                    step == total_blocks / n,
                    n * step <= total_blocks,
                    at == r@.len() * step,
                    forall|i: int| 0 <= i < r@.len() ==> #[trigger] r@[i] == blocks@[i * step],
                decreases n - r@.len(),
            {
                let ghost k = r@.len();
                assert(step >= 1) by (nonlinear_arith)
                    requires
                        0 < n < total_blocks,
                        step == total_blocks / n,
                ;
                assert(k * step + step == (k + 1) * step) by (nonlinear_arith);
                assert((k + 1) * step <= n * step) by (nonlinear_arith)
                    requires
                        k + 1 <= n,
                        0 <= step,
                ;
                r.push(blocks[at]);
                at = at + step;
            }
            assert(r@ =~= selected(blocks@, sample_size));
            r
        },
        None => blocks,
    }
}

/// Which blocks a sample takes. Where there are more blocks than its size, it
/// takes the first and goes on by equal steps, of the number of blocks divided by
/// the size; where there are no more, and where no size is given, it takes all.
pub proof fn law_sample_positions(blocks: Seq<BlockEntry>, sample_size: Option<usize>, i: int)
    ensures
        sample_size is None ==> selected(blocks, sample_size) == blocks,
        sample_size matches Some(n) ==> n >= blocks.len() ==> selected(blocks, sample_size)
            == blocks,
        sample_size matches Some(n) ==> n < blocks.len() ==> selected(blocks, sample_size).len()
            == n,
        sample_size matches Some(n) ==> n < blocks.len() && 0 <= i < n ==> selected(
            blocks,
            sample_size,
        )[i] == blocks[i * (blocks.len() as int / n as int)],
{
}

/// A sample has as many blocks as asked for, or all there are; they are blocks
/// of the list, in its order, one after each equal step, and no place in the
/// list is taken twice.
pub proof fn law_sample(blocks: Seq<BlockEntry>, n: usize)
    requires
        n > 0,
    ensures
        selected(blocks, Some(n)).len() == (if n < blocks.len() {
            n as nat
        } else {
            blocks.len()
        }),
        sample_step(blocks.len(), n as nat) >= 1,
        forall|i: int|
            #![trigger sample_place(blocks.len(), n as nat, i)]
            0 <= i < selected(blocks, Some(n)).len() ==> {
                &&& 0 <= sample_place(blocks.len(), n as nat, i) < blocks.len()
                &&& selected(blocks, Some(n))[i] == blocks[sample_place(blocks.len(), n as nat, i)]
            },
        forall|i: int, j: int|
            #![trigger sample_place(blocks.len(), n as nat, i), sample_place(blocks.len(), n as nat, j)]
            0 <= i < j < selected(blocks, Some(n)).len() ==> sample_place(
                blocks.len(),
                n as nat,
                i,
            ) < sample_place(blocks.len(), n as nat, j),
{
    let total = blocks.len() as int;
    let step = sample_step(blocks.len(), n as nat);
    if n < total {
        assert(1 <= step && n * step <= total) by (nonlinear_arith)
            requires
                0 < n < total,
                step == total / n as int,
        ;
    }
    assert forall|i: int|
        #![trigger sample_place(blocks.len(), n as nat, i)]
        0 <= i < selected(blocks, Some(n)).len() implies {
        &&& 0 <= sample_place(blocks.len(), n as nat, i) < blocks.len()
        &&& selected(blocks, Some(n))[i] == blocks[sample_place(blocks.len(), n as nat, i)]
    } by {
        if n < total {
            assert(0 <= i * step < n * step) by (nonlinear_arith)
                requires
                    0 <= i < n,
                    1 <= step,
            ;
        } else {
            assert(i * step == i) by (nonlinear_arith)
                requires
                    step == 1,
            ;
        }
    }
    assert forall|i: int, j: int|
        #![trigger sample_place(blocks.len(), n as nat, i), sample_place(blocks.len(), n as nat, j)]
        0 <= i < j < selected(blocks, Some(n)).len() implies sample_place(
        blocks.len(),
        n as nat,
        i,
    ) < sample_place(blocks.len(), n as nat, j) by {
        assert(i * step < j * step) by (nonlinear_arith)
            requires
                i < j,
                1 <= step,
        ;
    }
}

/// Where trie blobs stand: in the external blobs file, or in the database.
#[derive(Clone, Copy, Debug, PartialEq, Eq, Structural)]
pub enum BlobSource {
    External,
    Inline,
}

/// Whether the figures of a scan are extrapolated to all blocks: those of a
/// sample are, except that a scan of the database has to have found a block.
pub fn is_extrapolated(
    source: BlobSource,
    sample_size: Option<usize>,
    blocks_scanned: u64,
) -> (r: bool)
    ensures
        r == (sample_size is Some && (source is External || blocks_scanned > 0)),
{
    match (source, sample_size) {
        (_, None) => false,
        (BlobSource::External, Some(_)) => true,
        (BlobSource::Inline, Some(_)) => blocks_scanned > 0,
    }
}

/// What is done about a block: its blob is read, or it is passed over.
#[derive(Debug)]
pub enum BlockStep {
    /// Read `length` bytes at `offset`.
    Read { offset: u64, length: u64 },
    /// Pass the block over, with a warning where one is wanted.
    Skip { warning: Option<String> },
}

/// The block's blob lies in a file of `file_size` bytes.
pub open spec fn in_file(entry: BlockEntry, file_size: nat) -> bool {
    entry.offset + entry.length <= file_size
}

/// The warning about a block whose blob does not lie in the file.
pub open spec fn skip_warning(entry: BlockEntry) -> Seq<char> {
    "Warning: Block "@ + decimal(entry.block_id as nat) + " has invalid offset/length ("@
        + decimal(entry.offset as nat) + "/"@ + decimal(entry.length as nat) + "), skipping"@
}

/// Decides what is done about a block, given the size of the blobs file.
pub fn block_step(entry: &BlockEntry, file_size: u64, verbose: bool) -> (r: BlockStep)
    requires
        entry.offset + entry.length <= u64::MAX,
    ensures
        in_file(*entry, file_size as nat) ==> r == (BlockStep::Read {
            offset: entry.offset,
            length: entry.length,
        }),
        !in_file(*entry, file_size as nat) ==> r is Skip && match r->warning {
            Some(text) => verbose && text@ == skip_warning(*entry),
            None => !verbose,
        },
        entry.offset + entry.length <= file_size ==> r == (BlockStep::Read {
            offset: entry.offset,
            length: entry.length,
        }),
        entry.offset + entry.length > file_size ==> r is Skip,
        entry.offset + entry.length > file_size && !verbose ==> r->warning is None,
        entry.offset + entry.length > file_size && verbose ==> r->warning is Some
            && r->warning->0@ == "Warning: Block "@ + decimal(entry.block_id as nat)
                + " has invalid offset/length ("@ + decimal(entry.offset as nat) + "/"@ + decimal(
                entry.length as nat,
            ) + "), skipping"@,
{
    if entry.offset + entry.length > file_size {
        if verbose {
            let mut text = String::new();
            text.append("Warning: Block ");
            append_decimal(&mut text, entry.block_id as u64);
            text.append(" has invalid offset/length (");
            append_decimal(&mut text, entry.offset);
            text.append("/");
            append_decimal(&mut text, entry.length);
            text.append("), skipping");
            assert(text@ =~= skip_warning(*entry));
            BlockStep::Skip { warning: Some(text) }
        } else {
            BlockStep::Skip { warning: None }
        }
    } else {
        BlockStep::Read { offset: entry.offset, length: entry.length }
    }
}

/// Counts a block whose trie blob is `data`, and scans the blob. Returns the
/// lines that report the none-leaves; there are none unless `verbose` is set.
pub fn scan_block(
    data: &[u8],
    none_marf_value: &[u8; MARF_VALUE_SIZE],
    stats: &mut ZeroValueStats,
    verbose: bool,
) -> (lines: Vec<String>)
    requires
        old(stats)@.after_block(data@, none_marf_value@).fits(),
    ensures
        final(stats)@ == old(stats)@.after_block(data@, none_marf_value@),
        texts(lines@) == (if verbose {
            none_leaf_lines(none_leaves(data@, none_marf_value@))
        } else {
            Seq::empty()
        }),
        final(stats).blocks_scanned == old(stats).blocks_scanned + 1,
        final(stats).bytes_scanned == old(stats).bytes_scanned + data@.len(),
        final(stats).total_leaves == old(stats).total_leaves + leaves(data@).len(),
        final(stats).none_leaves == old(stats).none_leaves + none_leaves(
            data@,
            none_marf_value@,
        ).len(),
        final(stats).none_bytes == old(stats).none_bytes + none_leaves(
            data@,
            none_marf_value@,
        ).fold_left(0int, |n: int, l: Leaf| n + 74 + l.path_len),
        forall|p: usize| #[trigger]
            final(stats).none_path_lengths@.contains_key(p) <==> old(
                stats,
            ).none_path_lengths@.contains_key(p) || none_leaves(data@, none_marf_value@).filter(
                |l: Leaf| l.path_len == p,
            ).len() > 0,
        forall|p: usize| #[trigger]
            final(stats).none_path_lengths@.contains_key(p) ==> final(stats).none_path_lengths@[p]
                == (if old(stats).none_path_lengths@.contains_key(p) {
                old(stats).none_path_lengths@[p] as int
            } else {
                0
            }) + none_leaves(data@, none_marf_value@).filter(|l: Leaf| l.path_len == p).len(),
        !verbose ==> lines@.len() == 0,
        verbose ==> lines@.len() == none_leaves(data@, none_marf_value@).len(),
        verbose ==> forall|i: int|
            #![trigger lines@[i]]
            0 <= i < lines@.len() ==> {
                let l = none_leaves(data@, none_marf_value@)[i];
                lines@[i]@ == "  Found none-leaf at offset "@ + decimal(l.offset) + ", path_len="@
                    + decimal(l.path_len) + ", size="@ + decimal(74 + l.path_len)
            },
{
    stats.blocks_scanned = stats.blocks_scanned + 1;
    stats.bytes_scanned = stats.bytes_scanned + data.len() as u64;
    scan_trie_blob(data, none_marf_value, stats, verbose)
}

/// A blob lies in the file if and only if it ends within it, whatever its
/// length: then, and only then, it is read.
pub proof fn law_in_file(entry: BlockEntry, file_size: nat)
    ensures
        in_file(entry, file_size) <==> entry.offset + entry.length <= file_size,
{
}

/// The trie blob of `entry`, in a blobs file with the contents `file`.
pub open spec fn blob_of(entry: BlockEntry, file: Seq<u8>) -> Seq<u8> {
    file.subrange(entry.offset as int, entry.offset + entry.length)
}

/// The trie blobs of those of `blocks` whose blobs lie in the file.
pub open spec fn blobs_of(blocks: Seq<BlockEntry>, file: Seq<u8>) -> Seq<Seq<u8>> {
    blocks.filter(|e: BlockEntry| in_file(e, file.len())).map_values(
        |e: BlockEntry| blob_of(e, file),
    )
}

/// Taking the blocks one by one, and scanning those that are read and passing
/// over the others, gives the figures for the blobs of all blocks that lie in
/// the file: what comes of `blocks` comes of the step for the last of them,
/// taken after the rest.
pub proof fn law_scan_step_by_step(
    s: StatsView,
    blocks: Seq<BlockEntry>,
    entry: BlockEntry,
    file: Seq<u8>,
    none_value: Seq<u8>,
)
    ensures
        s.after_blocks(blobs_of(Seq::empty(), file), none_value) == s,
        ({
            let before = s.after_blocks(blobs_of(blocks, file), none_value);
            s.after_blocks(blobs_of(blocks.push(entry), file), none_value) == (if entry.offset
                + entry.length <= file.len() {
                before.after_block(
                    file.subrange(entry.offset as int, entry.offset + entry.length),
                    none_value,
                )
            } else {
                before
            })
        }),
{
    let pred = |e: BlockEntry| in_file(e, file.len());
    let blobs = blobs_of(blocks, file);
    blocks.lemma_filter_push(entry, pred);
    assert(blobs_of(Seq::empty(), file) =~= Seq::empty());
    if in_file(entry, file.len()) {
        let more = blobs.push(blob_of(entry, file));
        assert(blobs_of(blocks.push(entry), file) =~= more);
        assert(more.drop_last() =~= blobs);
    }
}

/// The blobs that are scanned are those that end within the file, in the order
/// of their blocks, each with all its bytes.
pub proof fn law_blobs_scanned(blocks: Seq<BlockEntry>, file: Seq<u8>)
    ensures
        blobs_of(blocks, file) == blocks.filter(
            |e: BlockEntry| e.offset + e.length <= file.len(),
        ).map_values(|e: BlockEntry| file.subrange(e.offset as int, e.offset + e.length)),
{
    let lies_in = |e: BlockEntry| in_file(e, file.len());
    let ends_in = |e: BlockEntry| e.offset + e.length <= file.len();
    let blob = |e: BlockEntry| blob_of(e, file);
    let bytes = |e: BlockEntry| file.subrange(e.offset as int, e.offset + e.length);
    assert(lies_in =~= ends_in);
    assert(blob =~= bytes);
}

/// Where all blobs lie in the file, every block is counted, and with it the
/// length of its blob.
pub proof fn law_all_blocks_counted(
    s: StatsView,
    blocks: Seq<BlockEntry>,
    file: Seq<u8>,
    none_value: Seq<u8>,
)
    requires
        forall|i: int|
            0 <= i < blocks.len() ==> (#[trigger] blocks[i]).offset + blocks[i].length
                <= file.len(),
    ensures
        s.after_blocks(blobs_of(blocks, file), none_value).blocks_scanned == s.blocks_scanned
            + blocks.len(),
        s.after_blocks(blobs_of(blocks, file), none_value).bytes_scanned == s.bytes_scanned
            + blocks.fold_left(0int, |n: int, e: BlockEntry| n + e.length),
    decreases blocks.len(),
{
    reveal_with_fuel(Seq::fold_left, 2);
    if blocks.len() == 0 {
        assert(blocks =~= Seq::empty());
        law_scan_step_by_step(s, blocks, arbitrary(), file, none_value);
    } else {
        let earlier = blocks.drop_last();
        let last = blocks.last();
        assert forall|i: int| 0 <= i < earlier.len() implies (#[trigger] earlier[i]).offset
            + earlier[i].length <= file.len() by {
            assert(earlier[i] == blocks[i]);
        }
        law_all_blocks_counted(s, earlier, file, none_value);
        law_scan_step_by_step(s, earlier, last, file, none_value);
        assert(blocks[blocks.len() - 1].offset + last.length <= file.len());
        assert(earlier.push(last) =~= blocks);
    }
}

} // verus!
