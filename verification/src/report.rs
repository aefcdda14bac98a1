//! The parts of the report that are made of text and whole numbers.

use std::collections::HashMap;
use vstd::prelude::*;

use crate::text::{append_decimal, decimal};
use crate::trie::{MARF_VALUE_SIZE, TRIE_HASH_SIZE, texts};

verus! {

broadcast use vstd::std_specs::hash::group_hash_axioms;

/// The lowercase hex digit for `d`.
pub open spec fn hex_digit(d: int) -> char {
    seq!['0', '1', '2', '3', '4', '5', '6', '7', '8', '9', 'a', 'b', 'c', 'd', 'e', 'f'][d]
}

/// `data` in lowercase hex, two digits for each byte.
pub open spec fn hex_text(data: Seq<u8>) -> Seq<char> {
    Seq::new(
        2 * data.len(),
        |i: int|
            if i % 2 == 0 {
                hex_digit(data[i / 2] as int / 16)
            } else {
                hex_digit(data[i / 2] as int % 16)
            },
    )
}

/// Calls `hex::encode`. The result holds two lowercase hex digits for each byte
/// of `data`, the higher half of the byte first. The text has to fit a `String`.
#[verifier::external_body]
fn hex_encode(data: &[u8]) -> (r: String)
    requires
        2 * data@.len() <= isize::MAX,
    ensures
        r@ == hex_text(data@),
{
    hex::encode(data)
}

/// Hex text has two characters for each byte: the digit of its higher half and
/// then that of its lower half, each `0` to `9` or `a` to `f`.
pub proof fn law_hex_digits(data: Seq<u8>, i: int)
    requires
        0 <= i < data.len(),
    ensures
        hex_text(data).len() == 2 * data.len(),
        ({
            let high = data[i] as int / 16;
            let low = data[i] as int % 16;
            &&& hex_text(data)[2 * i] as int == if high < 10 {
                48 + high
            } else {
                87 + high
            }
            &&& hex_text(data)[2 * i + 1] as int == if low < 10 {
                48 + low
            } else {
                87 + low
            }
        }),
{
    assert((2 * i) / 2 == i && (2 * i) % 2 == 0);
    assert((2 * i + 1) / 2 == i && (2 * i + 1) % 2 == 1);
}

/// The line that shows the hash part of the none-value.
pub open spec fn none_value_text(value: Seq<u8>) -> Seq<char> {
    "None-value MARFValue (SHA512_256 of \"09\"): 0x"@ + hex_text(
        value.take(TRIE_HASH_SIZE as int),
    )
}

/// Writes the line that shows the hash part of the none-value.
pub fn none_value_line(none_marf_value: &[u8; MARF_VALUE_SIZE]) -> (r: String)
    ensures
        r@ == none_value_text(none_marf_value@),
        r@ == "None-value MARFValue (SHA512_256 of \"09\"): 0x"@ + hex_text(
            none_marf_value@.subrange(0, 32),
        ),
{
    let hash = vstd::slice::slice_subrange(none_marf_value.as_slice(), 0, TRIE_HASH_SIZE);
    assert(hash@ =~= none_marf_value@.take(TRIE_HASH_SIZE as int));
    let mut r = String::new();
    r.append("None-value MARFValue (SHA512_256 of \"09\"): 0x");
    r.append(hex_encode(hash).as_str());
    assert(r@ =~= none_value_text(none_marf_value@));
    r
}

/// `entries` are ordered by rising path length.
pub open spec fn rising(entries: Seq<(usize, u64)>) -> bool {
    forall|i: int, j: int| 0 <= i < j < entries.len() ==> entries[i].0 < entries[j].0
}

/// `entries` are the entries of `counts`, by rising path length.
pub open spec fn in_order(entries: Seq<(usize, u64)>, counts: Map<usize, u64>) -> bool {
    &&& rising(entries)
    &&& forall|i: int|
        #![trigger entries[i]]
        0 <= i < entries.len() ==> counts.contains_key(entries[i].0) && counts[entries[i].0]
            == entries[i].1
    &&& forall|p: usize| #[trigger] counts.contains_key(p) ==> listed(entries, p)
}

/// `entries` has an entry for `path_len`.
pub open spec fn listed(entries: Seq<(usize, u64)>, path_len: usize) -> bool {
    exists|i: int| 0 <= i < entries.len() && (#[trigger] entries[i]).0 == path_len
}

/// Puts an entry where it belongs in a list that is ordered by path length,
/// unless its path length is listed already.
fn insert_entry(entries: &mut Vec<(usize, u64)>, path_len: usize, count: u64)
    requires
        rising(old(entries)@),
    ensures
        rising(final(entries)@),
        forall|i: int|
            #![trigger final(entries)@[i]]
            0 <= i < final(entries)@.len() ==> final(entries)@[i] == (path_len, count)
                || old(entries)@.contains(final(entries)@[i]),
        forall|p: usize| #[trigger] listed(old(entries)@, p) ==> listed(final(entries)@, p),
        listed(final(entries)@, path_len),
{
    let ghost before = entries@;
    let mut at: usize = 0;
    while at < entries.len() && entries[at].0 < path_len
        invariant
            entries@ == before,
            at <= before.len(),
            forall|i: int| 0 <= i < at ==> (#[trigger] before[i]).0 < path_len,
        decreases before.len() - at,
    {
        at = at + 1;
    }
    if at < entries.len() && entries[at].0 == path_len {
        assert(before[at as int].0 == path_len);
        return;
    }
    entries.insert(at, (path_len, count));
    proof {
        assert(entries@[at as int].0 == path_len);
        assert forall|i: int|
            #![trigger entries@[i]]
            0 <= i < entries@.len() implies entries@[i] == (path_len, count) || before.contains(
            entries@[i],
        ) by {
            if i < at {
                assert(entries@[i] == before[i]);
            } else if i > at {
                assert(entries@[i] == before[i - 1]);
            }
        }
        assert forall|p: usize| #[trigger] listed(before, p) implies listed(entries@, p) by {
            let i = choose|i: int| 0 <= i < before.len() && (#[trigger] before[i]).0 == p;
            if i < at {
                assert(entries@[i].0 == p);
            } else {
                assert(entries@[i + 1].0 == p);
            }
        }
    }
}

/// The distribution of path lengths, by rising length.
pub fn sorted_path_lengths(counts: &HashMap<usize, u64>) -> (entries: Vec<(usize, u64)>)
    ensures
        in_order(entries@, counts@),
        forall|i: int, j: int|
            0 <= i < j < entries@.len() ==> (#[trigger] entries@[i]).0 < (#[trigger] entries@[j]).0,
        forall|i: int|
            #![trigger entries@[i]]
            0 <= i < entries@.len() ==> counts@.contains_key(entries@[i].0)
                && counts@[entries@[i].0] == entries@[i].1,
        forall|p: usize| #[trigger]
            counts@.contains_key(p) ==> exists|i: int|
                0 <= i < entries@.len() && #[trigger] entries@[i] == (p, counts@[p]),
{
    let mut entries: Vec<(usize, u64)> = Vec::new();
    for path_len in it: counts.keys()
        invariant
            it.seq().unref().to_set() == counts@.dom(),
            rising(entries@),
            forall|i: int|
                #![trigger entries@[i]]
                0 <= i < entries@.len() ==> counts@.contains_key(entries@[i].0)
                    && counts@[entries@[i].0] == entries@[i].1,
            forall|j: int| 0 <= j < it.index() ==> listed(entries@, *#[trigger] it.seq()[j]),
    {
        assert(it.seq().unref()[it.index()] == *path_len);
        assert(it.seq().unref().to_set().contains(*path_len));
        let ghost before = entries@;
        if let Some(count) = counts.get(path_len) {
            insert_entry(&mut entries, *path_len, *count);
        }
        assert forall|i: int|
            #![trigger entries@[i]]
            0 <= i < entries@.len() implies counts@.contains_key(entries@[i].0)
            && counts@[entries@[i].0] == entries@[i].1 by {
            if entries@[i].0 != *path_len {
                let k = choose|k: int| 0 <= k < before.len() && before[k] == entries@[i];
                assert(counts@.contains_key(before[k].0));
            }
        }
    }
    assert forall|p: usize| #[trigger] counts@.contains_key(p) implies exists|i: int|
        0 <= i < entries@.len() && #[trigger] entries@[i] == (p, counts@[p]) by {
        assert(listed(entries@, p));
        let i = choose|i: int| 0 <= i < entries@.len() && (#[trigger] entries@[i]).0 == p;
        assert(entries@[i] == (p, counts@[p]));
    }
    entries
}

proof fn lemma_first_not_below(
    a: Seq<(usize, u64)>,
    b: Seq<(usize, u64)>,
    counts: Map<usize, u64>,
    k: int,
)
    requires
        in_order(a, counts),
        in_order(b, counts),
        0 <= k < a.len(),
        k <= b.len(),
        forall|i: int| 0 <= i < k ==> a[i] == b[i],
    ensures
        k < b.len(),
        b[k].0 <= a[k].0,
{
    assert(counts.contains_key(a[k].0));
    let j = choose|j: int| 0 <= j < b.len() && (#[trigger] b[j]).0 == a[k].0;
    if j < k {
        assert(a[j].0 < a[k].0);
    } else if k < j {
        assert(b[k].0 < b[j].0);
    }
}

/// There is one way only to list a distribution by rising path length.
pub proof fn law_order_unique(
    a: Seq<(usize, u64)>,
    b: Seq<(usize, u64)>,
    counts: Map<usize, u64>,
)
    requires
        in_order(a, counts),
        in_order(b, counts),
    ensures
        a == b,
{
    lemma_same_prefix(a, b, counts, a.len());
    if a.len() < b.len() {
        lemma_first_not_below(b, a, counts, a.len() as int);
    }
    assert(a =~= b);
}

proof fn lemma_same_prefix(
    a: Seq<(usize, u64)>,
    b: Seq<(usize, u64)>,
    counts: Map<usize, u64>,
    n: nat,
)
    requires
        in_order(a, counts),
        in_order(b, counts),
        n <= a.len(),
    ensures
        n <= b.len(),
        forall|i: int| 0 <= i < n ==> a[i] == b[i],
    decreases n,
{
    if n > 0 {
        let k = n - 1;
        lemma_same_prefix(a, b, counts, k as nat);
        lemma_first_not_below(a, b, counts, k);
        lemma_first_not_below(b, a, counts, k);
    }
}

/// The line for one path length.
pub open spec fn path_length_text(entry: (usize, u64)) -> Seq<char> {
    "  Path length "@ + decimal(entry.0 as nat) + ": "@ + decimal(entry.1 as nat) + " leaves"@
}

/// The lines that show a distribution of path lengths; nothing is shown of an
/// empty one.
pub open spec fn path_length_texts(entries: Seq<(usize, u64)>) -> Seq<Seq<char>> {
    if entries.len() == 0 {
        Seq::empty()
    } else {
        seq!["\nNone-leaf path length distribution:"@] + entries.map_values(
            |e: (usize, u64)| path_length_text(e),
        )
    }
}

/// Writes the lines that show a distribution of path lengths.
pub fn path_length_lines(entries: &Vec<(usize, u64)>) -> (lines: Vec<String>)
    ensures
        texts(lines@) == path_length_texts(entries@),
        entries@.len() == 0 ==> lines@.len() == 0,
        entries@.len() > 0 ==> lines@.len() == 1 + entries@.len(),
        entries@.len() > 0 ==> lines@[0]@ == "\nNone-leaf path length distribution:"@,
        forall|i: int|
            #![trigger entries@[i]]
            0 <= i < entries@.len() ==> lines@[1 + i]@ == "  Path length "@ + decimal(
                entries@[i].0 as nat,
            ) + ": "@ + decimal(entries@[i].1 as nat) + " leaves"@,
{
    let mut lines: Vec<String> = Vec::new();
    if entries.len() == 0 {
        assert(texts(lines@) =~= Seq::empty());
        return lines;
    }
    let ghost f = |e: (usize, u64)| path_length_text(e);
    let mut heading = String::new();
    heading.append("\nNone-leaf path length distribution:");
    assert(heading@ =~= "\nNone-leaf path length distribution:"@);
    lines.push(heading);
    let mut i: usize = 0;
    assert(texts(lines@) =~= seq!["\nNone-leaf path length distribution:"@] + entries@.take(
        0,
    ).map_values(f));
    while i < entries.len()
        invariant
            i <= entries@.len(),
            f == (|e: (usize, u64)| path_length_text(e)),
            texts(lines@) == seq!["\nNone-leaf path length distribution:"@] + entries@.take(
                i as int,
            ).map_values(f),
        decreases entries@.len() - i,
    {
        let mut line = String::new();
        line.append("  Path length ");
        append_decimal(&mut line, entries[i].0 as u64);
        line.append(": ");
        append_decimal(&mut line, entries[i].1);
        line.append(" leaves");
        assert(line@ =~= path_length_text(entries@[i as int]));
        assert(texts(lines@.push(line)) =~= texts(lines@).push(line@));
        assert(entries@.take(i + 1).map_values(f) =~= entries@.take(i as int).map_values(f).push(
            f(entries@[i as int]),
        ));
        lines.push(line);
        i = i + 1;
    }
    assert(entries@.take(i as int) =~= entries@);
    assert(texts(lines@).len() == lines@.len());
    assert(texts(lines@)[0] == lines@[0]@);
    assert forall|k: int| #![trigger entries@[k]] 0 <= k < entries@.len() implies lines@[1 + k]@
        == "  Path length "@ + decimal(entries@[k].0 as nat) + ": "@ + decimal(
        entries@[k].1 as nat,
    ) + " leaves"@ by {
        assert(texts(lines@)[1 + k] == f(entries@[k]));
    }
    lines
}

} // verus!
