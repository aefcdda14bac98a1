//! What the search for leaves promises of every trie blob.

use vstd::prelude::*;

use crate::trie::{
    Leaf, TRIE_HASH_SIZE, is_leaf_at, is_leaf_id, leaf_at, leaf_value, leaves, leaves_from,
    none_leaves,
};

verus! {

/// `ls` are leaves of `data`, all of them at or after `from`, in the order of
/// their offsets, and no two of them share a byte.
pub open spec fn laid_out(data: Seq<u8>, from: nat, ls: Seq<Leaf>) -> bool {
    &&& forall|i: int|
        #![trigger ls[i]]
        0 <= i < ls.len() ==> {
            &&& from <= ls[i].offset
            &&& is_leaf_at(data, ls[i].offset)
            &&& ls[i] == leaf_at(data, ls[i].offset)
        }
    &&& forall|i: int, j: int| 0 <= i < j < ls.len() ==> ls[i].end() <= ls[j].offset
}

/// `pos` lies within one of `ls`.
pub open spec fn covered(ls: Seq<Leaf>, pos: nat) -> bool {
    exists|i: int| 0 <= i < ls.len() && (#[trigger] ls[i]).offset <= pos < ls[i].end()
}

/// The bytes of the blob that `ls` take.
pub open spec fn extent(ls: Seq<Leaf>) -> nat
    decreases ls.len(),
{
    if ls.len() == 0 {
        0
    } else {
        (ls.first().end() - ls.first().offset) as nat + extent(ls.drop_first())
    }
}

proof fn lemma_laid_out_from(data: Seq<u8>, pos: nat)
    ensures
        laid_out(data, pos, leaves_from(data, pos)),
    decreases data.len() - pos,
{
    if pos >= data.len() {
    } else if is_leaf_at(data, pos) {
        let end = leaf_at(data, pos).end();
        lemma_laid_out_from(data, end);
        let rest = leaves_from(data, end);
        let all = leaves_from(data, pos);
        assert(all =~= seq![leaf_at(data, pos)] + rest);
        assert forall|i: int| #![trigger all[i]] 0 <= i < all.len() implies {
            &&& pos <= all[i].offset
            &&& is_leaf_at(data, all[i].offset)
            &&& all[i] == leaf_at(data, all[i].offset)
        } by {
            if i > 0 {
                assert(all[i] == rest[i - 1]);
            }
        }
        assert forall|i: int, j: int| 0 <= i < j < all.len() implies all[i].end()
            <= all[j].offset by {
            assert(all[j] == rest[j - 1]);
            if i > 0 {
                assert(all[i] == rest[i - 1]);
            }
        }
    } else {
        lemma_laid_out_from(data, pos + 1);
    }
}

/// Every leaf that is found is a whole leaf behind the root hash; the leaves
/// come in the order of their offsets and do not overlap.
pub proof fn law_leaves_laid_out(data: Seq<u8>)
    ensures
        laid_out(data, TRIE_HASH_SIZE as nat, leaves(data)),
{
    lemma_laid_out_from(data, TRIE_HASH_SIZE as nat);
}

proof fn lemma_covered_from(data: Seq<u8>, from: nat, pos: nat)
    requires
        from <= pos,
        is_leaf_at(data, pos),
    ensures
        covered(leaves_from(data, from), pos),
    decreases data.len() - from,
{
    let all = leaves_from(data, from);
    if is_leaf_at(data, from) {
        let end = leaf_at(data, from).end();
        let rest = leaves_from(data, end);
        assert(all =~= seq![leaf_at(data, from)] + rest);
        if pos < end {
            assert(all[0].offset <= pos < all[0].end());
        } else {
            lemma_covered_from(data, end, pos);
            let i = choose|i: int|
                0 <= i < rest.len() && (#[trigger] rest[i]).offset <= pos < rest[i].end();
            assert(all[i + 1] == rest[i]);
        }
    } else {
        lemma_covered_from(data, from + 1, pos);
    }
}

/// No leaf is missed: bytes behind the root hash that read as a whole leaf
/// start within a leaf that is found.
pub proof fn law_no_leaf_missed(data: Seq<u8>, pos: nat)
    requires
        TRIE_HASH_SIZE <= pos,
        is_leaf_at(data, pos),
    ensures
        covered(leaves(data), pos),
{
    lemma_covered_from(data, TRIE_HASH_SIZE as nat, pos);
}

#[verifier::spinoff_prover]
#[verifier::rlimit(40)]
proof fn lemma_unique_from(data: Seq<u8>, from: nat, ls: Seq<Leaf>)
    requires
        laid_out(data, from, ls),
        forall|pos: nat| from <= pos && #[trigger] is_leaf_at(data, pos) ==> covered(ls, pos),
    ensures
        ls == leaves_from(data, from),
    decreases data.len() - from,
{
    if from >= data.len() {
        if ls.len() > 0 {
            assert(is_leaf_at(data, ls[0].offset));
        }
        assert(ls =~= Seq::empty());
    } else if is_leaf_at(data, from) {
        let end = leaf_at(data, from).end();
        let rest = ls.drop_first();
        assert(covered(ls, from));
        let i = choose|i: int|
            0 <= i < ls.len() && (#[trigger] ls[i]).offset <= from < ls[i].end();
        if i > 0 {
            assert(ls[0].end() <= ls[i].offset);
        }
        assert(ls[0] == leaf_at(data, from));
        assert forall|j: int| #![trigger rest[j]] 0 <= j < rest.len() implies {
            &&& end <= rest[j].offset
            &&& is_leaf_at(data, rest[j].offset)
            &&& rest[j] == leaf_at(data, rest[j].offset)
        } by {
            assert(rest[j] == ls[j + 1]);
            assert(ls[0].end() <= ls[j + 1].offset);
        }
        assert forall|pos: nat| end <= pos && #[trigger] is_leaf_at(data, pos) implies covered(
            rest,
            pos,
        ) by {
            assert(covered(ls, pos));
            let k = choose|k: int|
                0 <= k < ls.len() && (#[trigger] ls[k]).offset <= pos < ls[k].end();
            assert(rest[k - 1] == ls[k]);
        }
        lemma_unique_from(data, end, rest);
        assert(ls =~= seq![leaf_at(data, from)] + rest);
    } else {
        assert forall|j: int| #![trigger ls[j]] 0 <= j < ls.len() implies {
            &&& from + 1 <= ls[j].offset
            &&& is_leaf_at(data, ls[j].offset)
            &&& ls[j] == leaf_at(data, ls[j].offset)
        } by {}
        lemma_unique_from(data, from + 1, ls);
    }
}

/// Nothing more has to be said: leaves behind the root hash that come in order, do
/// not overlap, and leave no leaf out are the leaves that are found.
pub proof fn law_leaves_determined(data: Seq<u8>, ls: Seq<Leaf>)
    requires
        laid_out(data, TRIE_HASH_SIZE as nat, ls),
        forall|pos: nat|
            TRIE_HASH_SIZE <= pos && #[trigger] is_leaf_at(data, pos) ==> covered(ls, pos),
    ensures
        ls == leaves(data),
{
    lemma_unique_from(data, TRIE_HASH_SIZE as nat, ls);
}

proof fn lemma_extent_from(data: Seq<u8>, pos: nat)
    requires
        pos <= data.len(),
    ensures
        extent(leaves_from(data, pos)) <= data.len() - pos,
    decreases data.len() - pos,
{
    if pos >= data.len() {
    } else if is_leaf_at(data, pos) {
        let end = leaf_at(data, pos).end();
        lemma_extent_from(data, end);
        assert(leaves_from(data, pos).drop_first() =~= leaves_from(data, end));
    } else {
        lemma_extent_from(data, pos + 1);
    }
}

/// The leaves that are found take no more bytes than the blob holds behind its
/// root hash.
pub proof fn law_leaves_fit_blob(data: Seq<u8>)
    ensures
        data.len() >= TRIE_HASH_SIZE ==> extent(leaves(data)) + TRIE_HASH_SIZE <= data.len(),
        data.len() < TRIE_HASH_SIZE ==> leaves(data).len() == 0,
{
    if data.len() >= TRIE_HASH_SIZE {
        lemma_extent_from(data, TRIE_HASH_SIZE as nat);
    }
}

proof fn lemma_same_tail(a: Seq<u8>, b: Seq<u8>, pos: nat)
    requires
        a.len() == b.len(),
        forall|i: int| pos <= i < a.len() ==> a[i] == b[i],
    ensures
        leaves_from(a, pos) == leaves_from(b, pos),
    decreases a.len() - pos,
{
    if pos < a.len() {
        if is_leaf_at(a, pos) {
            assert(is_leaf_at(b, pos));
            lemma_same_tail(a, b, leaf_at(a, pos).end());
        } else {
            assert(!is_leaf_at(b, pos));
            lemma_same_tail(a, b, pos + 1);
        }
    }
}

/// The root hash plays no part: blobs that differ in it alone have the same
/// leaves, with the same values.
pub proof fn law_root_hash_ignored(root_a: Seq<u8>, root_b: Seq<u8>, nodes: Seq<u8>)
    requires
        root_a.len() == TRIE_HASH_SIZE,
        root_b.len() == TRIE_HASH_SIZE,
    ensures
        leaves(root_a + nodes) == leaves(root_b + nodes),
        forall|i: int|
            0 <= i < leaves(root_a + nodes).len() ==> #[trigger] leaf_value(
                root_a + nodes,
                leaves(root_a + nodes)[i],
            ) == leaf_value(root_b + nodes, leaves(root_b + nodes)[i]),
{
    let a = root_a + nodes;
    let b = root_b + nodes;
    lemma_same_tail(a, b, TRIE_HASH_SIZE as nat);
    law_leaves_laid_out(a);
    assert forall|i: int| 0 <= i < leaves(a).len() implies #[trigger] leaf_value(a, leaves(a)[i])
        == leaf_value(b, leaves(b)[i]) by {
        assert(leaf_value(a, leaves(a)[i]) =~= leaf_value(b, leaves(b)[i]));
    }
}

/// A leaf as it is written to a blob, behind bytes that belong to other nodes.
pub struct WrittenLeaf {
    pub gap: Seq<u8>,
    pub id: u8,
    pub path: Seq<u8>,
    pub value: Seq<u8>,
}

/// No byte of `s` is the node ID of a leaf.
pub open spec fn free_of_leaf_ids(s: Seq<u8>) -> bool {
    forall|i: int| 0 <= i < s.len() ==> #[trigger] s[i] != 0x01 && s[i] != 0x81
}

impl WrittenLeaf {
    /// The path's length fits its byte, the value has its size, and the bytes
    /// before the leaf hold nothing that looks like the start of one.
    pub open spec fn valid(self) -> bool {
        &&& free_of_leaf_ids(self.gap)
        &&& self.id == 0x01 || self.id == 0x81
        &&& self.path.len() <= 255
        &&& self.value.len() == 40
    }

    /// Node ID, path length, path, value.
    pub open spec fn bytes(self) -> Seq<u8> {
        seq![self.id, self.path.len() as u8] + self.path + self.value
    }
}

/// The nodes of a blob: the leaves `ws`, each behind its gap, then `tail`.
pub open spec fn written(ws: Seq<WrittenLeaf>, tail: Seq<u8>) -> Seq<u8>
    decreases ws.len(),
{
    if ws.len() == 0 {
        tail
    } else {
        ws.first().gap + ws.first().bytes() + written(ws.drop_first(), tail)
    }
}

proof fn lemma_skip_gap(data: Seq<u8>, pos: nat, end: nat)
    requires
        pos <= end <= data.len(),
        forall|i: int| pos <= i < end ==> !is_leaf_id(#[trigger] data[i]),
    ensures
        leaves_from(data, pos) == leaves_from(data, end),
    decreases end - pos,
{
    if pos < end {
        lemma_skip_gap(data, pos + 1, end);
    }
}

proof fn lemma_written_found(before: Seq<u8>, ws: Seq<WrittenLeaf>, tail: Seq<u8>)
    requires
        forall|i: int| 0 <= i < ws.len() ==> (#[trigger] ws[i]).valid(),
        free_of_leaf_ids(tail),
    ensures
        ({
            let data = before + written(ws, tail);
            let found = leaves_from(data, before.len());
            &&& found.len() == ws.len()
            &&& forall|i: int|
                #![trigger found[i]]
                0 <= i < ws.len() ==> {
                    &&& data.subrange(found[i].offset as int, found[i].end() as int)
                        == ws[i].bytes()
                    &&& found[i].path_len == ws[i].path.len()
                    &&& leaf_value(data, found[i]) == ws[i].value
                }
        }),
    decreases ws.len(),
{
    let data = before + written(ws, tail);
    let found = leaves_from(data, before.len());
    if ws.len() == 0 {
        lemma_skip_gap(data, before.len(), data.len());
    } else {
        let w = ws.first();
        assert(ws[0].valid());
        let pos = before.len() + w.gap.len();
        let next = before + (w.gap + w.bytes());
        let rest = leaves_from(data, next.len());
        assert(data =~= next + written(ws.drop_first(), tail));
        assert forall|i: int| before.len() <= i < pos implies !is_leaf_id(#[trigger] data[i]) by {
            assert(data[i] == w.gap[i - before.len()]);
        }
        lemma_skip_gap(data, before.len(), pos);
        assert(data[pos as int] == w.bytes()[0]);
        assert(data[pos as int + 1] == w.bytes()[1]);
        assert(leaf_at(data, pos).end() == next.len());
        assert(found =~= seq![leaf_at(data, pos)] + rest);
        assert(data.subrange(pos as int, next.len() as int) =~= w.bytes());
        assert(leaf_value(data, leaf_at(data, pos)) =~= w.value);
        assert forall|i: int| 0 <= i < ws.drop_first().len() implies (
        #[trigger] ws.drop_first()[i]).valid() by {
            assert(ws[i + 1].valid());
        }
        lemma_written_found(next, ws.drop_first(), tail);
        assert forall|i: int| #![trigger found[i]] 0 <= i < ws.len() implies {
            &&& data.subrange(found[i].offset as int, found[i].end() as int) == ws[i].bytes()
            &&& found[i].path_len == ws[i].path.len()
            &&& leaf_value(data, found[i]) == ws[i].value
        } by {
            if i > 0 {
                assert(found[i] == rest[i - 1]);
                assert(ws[i] == ws.drop_first()[i - 1]);
            }
        }
    }
}

proof fn lemma_filter_alike<A, B>(
    a: Seq<A>,
    b: Seq<B>,
    p: spec_fn(A) -> bool,
    q: spec_fn(B) -> bool,
)
    requires
        a.len() == b.len(),
        forall|i: int| 0 <= i < a.len() ==> p(#[trigger] a[i]) == q(b[i]),
    ensures
        a.filter(p).len() == b.filter(q).len(),
    decreases a.len(),
{
    reveal(Seq::filter);
    if a.len() > 0 {
        assert(p(a[a.len() - 1]) == q(b[a.len() - 1]));
        assert forall|i: int| 0 <= i < a.drop_last().len() implies p(#[trigger] a.drop_last()[i])
            == q(b.drop_last()[i]) by {
            assert(p(a[i]) == q(b[i]));
        }
        lemma_filter_alike(a.drop_last(), b.drop_last(), p, q);
    }
}

/// What is written is found: a blob made of a root hash and of leaves, with
/// nothing between them that looks like the start of a leaf, gives back exactly
/// those leaves, in order, each with its bytes, its path length and its value;
/// and as many of them are none-leaves as were written with the none-value.
pub proof fn law_written_leaves_found(
    root: Seq<u8>,
    ws: Seq<WrittenLeaf>,
    tail: Seq<u8>,
    none_value: Seq<u8>,
)
    requires
        root.len() == TRIE_HASH_SIZE,
        forall|i: int| 0 <= i < ws.len() ==> (#[trigger] ws[i]).valid(),
        free_of_leaf_ids(tail),
    ensures
        ({
            let data = root + written(ws, tail);
            let found = leaves(data);
            &&& found.len() == ws.len()
            &&& forall|i: int|
                #![trigger found[i]]
                0 <= i < ws.len() ==> {
                    &&& data.subrange(found[i].offset as int, found[i].end() as int)
                        == ws[i].bytes()
                    &&& found[i].path_len == ws[i].path.len()
                    &&& leaf_value(data, found[i]) == ws[i].value
                }
            &&& none_leaves(data, none_value).len() == ws.filter(
                |w: WrittenLeaf| w.value == none_value,
            ).len()
        }),
{
    let data = root + written(ws, tail);
    lemma_written_found(root, ws, tail);
    lemma_filter_alike(
        leaves(data),
        ws,
        |l: Leaf| leaf_value(data, l) == none_value,
        |w: WrittenLeaf| w.value == none_value,
    );
}

/// What a found leaf is, in bytes: it stands behind the 32 bytes of the root
/// hash, its first byte is 1, or 0x81 where the back-pointer flag is set, its
/// second byte is the length of its path, and path and value end within the
/// blob. The next leaf starts where it ends, or later.
pub proof fn law_found_leaf_bytes(data: Seq<u8>, i: int)
    requires
        0 <= i < leaves(data).len(),
    ensures
        ({
            let l = leaves(data)[i];
            &&& 32 <= l.offset
            &&& data[l.offset as int] == 0x01 || data[l.offset as int] == 0x81
            &&& l.path_len == data[l.offset as int + 1]
            &&& l.offset + 2 + l.path_len + 40 <= data.len()
        }),
        forall|j: int|
            i < j < leaves(data).len() ==> leaves(data)[i].offset + 2 + leaves(data)[i].path_len
                + 40 <= (#[trigger] leaves(data)[j]).offset,
{
    law_leaves_laid_out(data);
    assert(is_leaf_at(data, leaves(data)[i].offset));
}

/// What is found, in bytes: where a byte behind the root hash is 1 or 0x81, and
/// a path of the length that the next byte says and 40 bytes more fit the blob,
/// that byte lies within a leaf that is found.
pub proof fn law_leaf_bytes_found(data: Seq<u8>, pos: int)
    requires
        32 <= pos,
        pos + 1 < data.len(),
        data[pos] == 0x01 || data[pos] == 0x81,
        pos + 2 + data[pos + 1] + 40 <= data.len(),
    ensures
        exists|i: int|
            #![trigger leaves(data)[i]]
            0 <= i < leaves(data).len() && leaves(data)[i].offset <= pos < leaves(data)[i].offset
                + 2 + leaves(data)[i].path_len + 40,
{
    law_no_leaf_missed(data, pos as nat);
    let ls = leaves(data);
    let i = choose|i: int|
        0 <= i < ls.len() && (#[trigger] ls[i]).offset <= pos < ls[i].end();
    assert(leaves(data)[i].offset <= pos);
}

/// The bytes leave no choice: a list of leaves that are leaves by their bytes,
/// come in order without overlap, and cover every byte at which a leaf could
/// start, is the list that is found.
pub proof fn law_bytes_determine_leaves(data: Seq<u8>, ls: Seq<Leaf>)
    requires
        forall|i: int|
            #![trigger ls[i]]
            0 <= i < ls.len() ==> {
                &&& 32 <= ls[i].offset
                &&& ls[i].offset + 1 < data.len()
                &&& data[ls[i].offset as int] == 0x01 || data[ls[i].offset as int] == 0x81
                &&& ls[i].path_len == data[ls[i].offset as int + 1]
                &&& ls[i].offset + 2 + ls[i].path_len + 40 <= data.len()
            },
        forall|i: int, j: int|
            0 <= i < j < ls.len() ==> (#[trigger] ls[i]).offset + 2 + ls[i].path_len + 40 <= (
            #[trigger] ls[j]).offset,
        forall|pos: int|
            #![trigger data[pos]]
            32 <= pos && pos + 1 < data.len() && (data[pos] == 0x01 || data[pos] == 0x81) && pos
                + 2 + data[pos + 1] + 40 <= data.len() ==> exists|i: int|
                #![trigger ls[i]]
                0 <= i < ls.len() && ls[i].offset <= pos < ls[i].offset + 2 + ls[i].path_len + 40,
    ensures
        ls == leaves(data),
{
    assert forall|i: int| #![trigger ls[i]] 0 <= i < ls.len() implies {
        &&& 32 <= ls[i].offset
        &&& is_leaf_at(data, ls[i].offset)
        &&& ls[i] == leaf_at(data, ls[i].offset)
    } by {}
    assert forall|pos: nat| 32 <= pos && #[trigger] is_leaf_at(data, pos) implies covered(
        ls,
        pos,
    ) by {
        assert(data[pos as int] == 0x01 || data[pos as int] == 0x81);
        let i = choose|i: int|
            #![trigger ls[i]]
            0 <= i < ls.len() && ls[i].offset <= pos < ls[i].offset + 2 + ls[i].path_len + 40;
        assert(ls[i].offset <= pos < ls[i].end());
    }
    law_leaves_determined(data, ls);
}

/// A blob without the bytes 1 and 0x81 behind its root hash holds no leaf.
pub proof fn law_no_leaf_without_id(data: Seq<u8>)
    requires
        forall|i: int| 32 <= i < data.len() ==> #[trigger] data[i] != 0x01 && data[i] != 0x81,
    ensures
        leaves(data).len() == 0,
{
    if leaves(data).len() > 0 {
        law_found_leaf_bytes(data, 0);
    }
}

/// A blob of fewer than 74 bytes holds no leaf: it has no room for a root hash
/// and the smallest leaf.
pub proof fn law_small_blob_holds_no_leaf(data: Seq<u8>)
    requires
        data.len() < 74,
    ensures
        leaves(data).len() == 0,
{
    if leaves(data).len() > 0 {
        law_found_leaf_bytes(data, 0);
    }
}

/// The none-leaves are those of the leaves whose last 40 bytes are the
/// none-value, in the same order.
pub proof fn law_none_leaf_bytes(data: Seq<u8>, none_value: Seq<u8>)
    ensures
        none_leaves(data, none_value) == leaves(data).filter(
            |l: Leaf|
                data.subrange(
                    l.offset as int + 2 + l.path_len as int,
                    l.offset as int + 2 + l.path_len as int + 40,
                ) == none_value,
        ),
{
    let pred = |l: Leaf| leaf_value(data, l) == none_value;
    let by_bytes = |l: Leaf|
        data.subrange(
            l.offset as int + 2 + l.path_len as int,
            l.offset as int + 2 + l.path_len as int + 40,
        ) == none_value;
    assert(pred =~= by_bytes);
}

/// Every leaf is a none-leaf or is not, by its own 40 bytes alone: for two
/// different values, no leaf holds both, and so no more leaves hold the one or
/// the other than there are.
pub proof fn law_values_exclude_each_other(data: Seq<u8>, a: Seq<u8>, b: Seq<u8>)
    requires
        a != b,
    ensures
        none_leaves(data, a).len() + none_leaves(data, b).len() <= leaves(data).len(),
{
    lemma_filters_exclude(
        leaves(data),
        |l: Leaf| leaf_value(data, l) == a,
        |l: Leaf| leaf_value(data, l) == b,
    );
}

proof fn lemma_filters_exclude(ls: Seq<Leaf>, p: spec_fn(Leaf) -> bool, q: spec_fn(Leaf) -> bool)
    requires
        forall|l: Leaf| !(#[trigger] p(l) && q(l)),
    ensures
        ls.filter(p).len() + ls.filter(q).len() <= ls.len(),
    decreases ls.len(),
{
    reveal(Seq::filter);
    if ls.len() > 0 {
        lemma_filters_exclude(ls.drop_last(), p, q);
        assert(!(p(ls.last()) && q(ls.last())));
    }
}

} // verus!
