//! The database queries that list blocks.

use vstd::prelude::*;

use crate::text::{append_decimal, decimal};

verus! {

/// Lists the blocks whose trie blobs stand in the external blobs file.
pub const EXTERNAL_BLOCKS_QUERY: &'static str =
    "SELECT block_id, external_offset, external_length FROM marf_data
         WHERE external_length > 0 AND unconfirmed = 0
         ORDER BY block_id";

/// Counts the blocks whose trie blobs stand in the database.
pub const INLINE_BLOCK_COUNT_QUERY: &'static str =
    "SELECT COUNT(*) FROM marf_data WHERE unconfirmed = 0 AND LENGTH(data) > 0";

/// How the blocks of the database are ordered and limited: for a sample, as many
/// as the sample size says, picked at random; otherwise all of them, by block.
pub open spec fn order_clause(sample_size: Option<usize>) -> Seq<char> {
    match sample_size {
        Some(n) => "ORDER BY RANDOM() LIMIT "@ + decimal(n as nat),
        None => "ORDER BY block_id "@,
    }
}

/// The query that lists the blocks whose trie blobs stand in the database: a
/// random sample of them, or all.
pub open spec fn inline_blocks_query_text(sample_size: Option<usize>) -> Seq<char> {
    "SELECT block_id, data FROM marf_data
         WHERE unconfirmed = 0 AND LENGTH(data) > 0
         "@ + order_clause(sample_size)
}

/// The query for the blocks of the database, whatever the sample size: it ends in
/// the sample size, in decimal, behind a random order, and without a sample size
/// it orders by block and sets no limit.
pub proof fn law_inline_blocks_query(n: usize)
    ensures
        inline_blocks_query_text(Some(n)) == "SELECT block_id, data FROM marf_data
         WHERE unconfirmed = 0 AND LENGTH(data) > 0
         "@ + ("ORDER BY RANDOM() LIMIT "@ + decimal(n as nat)),
        inline_blocks_query_text(None) == "SELECT block_id, data FROM marf_data
         WHERE unconfirmed = 0 AND LENGTH(data) > 0
         "@ + "ORDER BY block_id "@,
{
}

/// Writes the query that lists the blocks whose trie blobs stand in the
/// database.
pub fn inline_blocks_query(sample_size: Option<usize>) -> (r: String)
    ensures
        r@ == inline_blocks_query_text(sample_size),
        r@ == "SELECT block_id, data FROM marf_data
         WHERE unconfirmed = 0 AND LENGTH(data) > 0
         "@ + (match sample_size {
            Some(n) => "ORDER BY RANDOM() LIMIT "@ + decimal(n as nat),
            None => "ORDER BY block_id "@,
        }),
{
    let mut r = String::new();
    r.append(
        "SELECT block_id, data FROM marf_data
         WHERE unconfirmed = 0 AND LENGTH(data) > 0
         ",
    );
    match sample_size {
        Some(n) => {
            r.append("ORDER BY RANDOM() LIMIT ");
            append_decimal(&mut r, n as u64);
        },
        None => {
            r.append("ORDER BY block_id ");
        },
    }
    assert(r@ =~= inline_blocks_query_text(sample_size));
    r
}

/// How many blocks a scan of the database shows as its goal: the sample size,
/// or else all `total_blocks`.
pub fn inline_scan_goal(sample_size: Option<usize>, total_blocks: u32) -> (r: u64)
    ensures
        r == (match sample_size {
            Some(n) => n as int,
            None => total_blocks as int,
        }),
{
    match sample_size {
        Some(n) => n as u64,
        None => total_blocks as u64,
    }
}

} // verus!
