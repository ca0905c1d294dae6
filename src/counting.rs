//! The per-chunk scan: assigning the reads of one chunk to features.
use crate::chunks::{Chunk, covered, partition_ok};
use crate::tree::{OurTree, TreeEntry, entry_set, overlaps, tree_find, tree_wf};
use vstd::prelude::*;

verus! {

/// One alignment record as the counter sees it.
pub struct AlignedRead {
    /// The aligned blocks `[b0, b1)` of the record; a spliced read has several.
    pub blocks: Vec<(u32, u32)>,
    /// The multi-mapping count tag, if the record carries one.
    pub nh: Option<i64>,
    /// The query name of the read.
    pub qname: Vec<u8>,
}

/// A block `[b0, b1)` is attributed to the chunk `[start, stop)` unless it lies
/// before the chunk, after it, or starts before the chunk and reaches into it.
pub open spec fn block_in_chunk(b0: int, b1: int, start: int, stop: int) -> bool {
    !(b1 < start || b0 >= stop || (b0 < start && b1 >= start))
}

/// A record is uniquely mapped when its tag is absent or equals 1.
pub open spec fn is_unique(nh: Option<i64>) -> bool {
    match nh {
        None => true,
        Some(v) => v == 1,
    }
}

/// Whether a block overlaps some interval of feature `g`.
pub open spec fn block_hits(entries: Set<TreeEntry>, b: (u32, u32), g: u32) -> bool {
    exists|x: TreeEntry| #[trigger] entries.contains(x) && x.2 == g && overlaps(x.0 as int, x.1 as int, b.0 as int, b.1 as int)
}

/// Whether one of the first `n` blocks is attributed to the chunk and hits feature `g`.
pub open spec fn hits_upto(entries: Set<TreeEntry>, blocks: Seq<(u32, u32)>, start: int, stop: int, g: u32, n: int) -> bool {
    exists|j: int|
        0 <= j < n && block_in_chunk(blocks[j].0 as int, blocks[j].1 as int, start, stop)
            && #[trigger] block_hits(entries, blocks[j], g)
}

/// Whether a record with these blocks touches feature `g` within the chunk.
pub open spec fn read_hits(entries: Set<TreeEntry>, blocks: Seq<(u32, u32)>, start: int, stop: int, g: u32) -> bool {
    hits_upto(entries, blocks, start, stop, g, blocks.len() as int)
}

/// The number of uniquely mapped records that touch feature `g`.
pub open spec fn unique_count(entries: Set<TreeEntry>, reads: Seq<AlignedRead>, start: int, stop: int, g: u32) -> nat
    decreases reads.len(),
{
    if reads.len() == 0 {
        0
    } else {
        let r = reads.last();
        unique_count(entries, reads.drop_last(), start, stop, g)
            + if is_unique(r.nh) && read_hits(entries, r.blocks@, start, stop, g) { 1nat } else { 0nat }
    }
}

/// The query names of the multi-mapped records that touch feature `g`.
pub open spec fn multi_names(entries: Set<TreeEntry>, reads: Seq<AlignedRead>, start: int, stop: int, g: u32) -> Set<Seq<u8>>
    decreases reads.len(),
{
    if reads.len() == 0 {
        Set::empty()
    } else {
        let r = reads.last();
        let prev = multi_names(entries, reads.drop_last(), start, stop, g);
        if !is_unique(r.nh) && read_hits(entries, r.blocks@, start, stop, g) {
            prev.insert(r.qname@)
        } else {
            prev
        }
    }
}

/// The count of feature `g` in a chunk: one per uniquely mapped record that
/// touches it, plus one per distinct query name among the multi-mapped records
/// that touch it.
pub open spec fn feature_count(entries: Set<TreeEntry>, reads: Seq<AlignedRead>, start: int, stop: int, g: u32) -> nat {
    unique_count(entries, reads, start, stop, g) + multi_names(entries, reads, start, stop, g).len()
}

/// The set of names is finite, and the count never exceeds the number of records.
pub proof fn lemma_count_bounded(entries: Set<TreeEntry>, reads: Seq<AlignedRead>, start: int, stop: int, g: u32)
    ensures
        multi_names(entries, reads, start, stop, g).finite(),
        feature_count(entries, reads, start, stop, g) <= reads.len(),
    decreases reads.len(),
{
    if reads.len() > 0 {
        lemma_count_bounded(entries, reads.drop_last(), start, stop, g);
    }
}

/// Whether a block is attributed to the chunk `[start, stop)`.
pub fn block_in_chunk_exec(b0: u32, b1: u32, start: u64, stop: u64) -> (r: bool)
    ensures
        r == block_in_chunk(b0 as int, b1 as int, start as int, stop as int),
{
    !((b1 as u64) < start || (b0 as u64) >= stop || ((b0 as u64) < start && (b1 as u64) >= start))
}

fn contains_u32(v: &Vec<u32>, x: u32) -> (r: bool)
    ensures
        r == v@.contains(x),
{
    let mut i: usize = 0;
    while i < v.len()
        invariant
            0 <= i <= v@.len(),
            forall|k: int| 0 <= k < i ==> v@[k] != x,
        decreases v@.len() - i,
    {
        if v[i] == x {
            return true;
        }
        i += 1;
    }
    false
}

/// The distinct features that a record touches within the chunk `[start, stop)`.
pub fn read_features(tree: &OurTree, read: &AlignedRead, start: u64, stop: u64) -> (r: Vec<u32>)
    ensures
        r@.no_duplicates(),
        forall|g: u32| r@.contains(g) <==> read_hits(entry_set(*tree), read.blocks@, start as int, stop as int, g),
{
    let ghost entries = entry_set(*tree);
    let ghost blocks = read.blocks@;
    let mut genes: Vec<u32> = Vec::new();
    let mut j: usize = 0;
    while j < read.blocks.len()
        invariant
            entries == entry_set(*tree),
            blocks == read.blocks@,
            0 <= j <= blocks.len(),
            genes@.no_duplicates(),
            forall|g: u32| genes@.contains(g) <==> hits_upto(entries, blocks, start as int, stop as int, g, j as int),
        decreases blocks.len() - j,
    {
        let b = read.blocks[j];
        if block_in_chunk_exec(b.0, b.1, start, stop) && b.0 < b.1 {
            let found = tree_find(tree, b.0, b.1);
            let mut k: usize = 0;
            while k < found.len()
                invariant
                    entries == entry_set(*tree),
                    blocks == read.blocks@,
                    0 <= j < blocks.len(),
                    b == blocks[j as int],
                    0 <= k <= found@.len(),
                    genes@.no_duplicates(),
                    forall|i: int| 0 <= i < found@.len() ==> {
                        &&& #[trigger] entries.contains(found@[i])
                        &&& overlaps(found@[i].0 as int, found@[i].1 as int, b.0 as int, b.1 as int)
                    },
                    forall|g: u32| genes@.contains(g) <==> (hits_upto(entries, blocks, start as int, stop as int, g, j as int)
                        || exists|i: int| 0 <= i < k && (#[trigger] found@[i]).2 == g),
                decreases found@.len() - k,
            {
                let g = found[k].2;
                let ghost before = genes@;
                if !contains_u32(&genes, g) {
                    genes.push(g);
                }
                proof {
                    assert(genes@.contains(g)) by {
                        if genes@ != before {
                            assert(genes@[before.len() as int] == g);
                        }
                    };
                    assert forall|h: u32| genes@.contains(h) && h != g implies before.contains(h) by {
                        let i = choose|i: int| 0 <= i < genes@.len() && genes@[i] == h;
                        assert(before[i] == h);
                    };
                    assert forall|h: u32| before.contains(h) implies genes@.contains(h) by {
                        let i = choose|i: int| 0 <= i < before.len() && before[i] == h;
                        assert(genes@[i] == h);
                    };
                    assert forall|h: u32| genes@.contains(h) <==> (hits_upto(entries, blocks, start as int, stop as int, h, j as int)
                        || exists|i: int| 0 <= i < k + 1 && (#[trigger] found@[i]).2 == h) by {
                        if h == g {
                            assert(found@[k as int].2 == h);
                        } else if genes@.contains(h) {
                            assert(before.contains(h));
                            if !hits_upto(entries, blocks, start as int, stop as int, h, j as int) {
                                let i = choose|i: int| 0 <= i < k && (#[trigger] found@[i]).2 == h;
                                assert(0 <= i < k + 1 && found@[i].2 == h);
                            }
                        }
                        if exists|i: int| 0 <= i < k + 1 && (#[trigger] found@[i]).2 == h {
                            let i = choose|i: int| 0 <= i < k + 1 && (#[trigger] found@[i]).2 == h;
                            if i < k {
                                assert(exists|i: int| 0 <= i < k && (#[trigger] found@[i]).2 == h);
                                assert(before.contains(h));
                            }
                        }
                        if hits_upto(entries, blocks, start as int, stop as int, h, j as int) {
                            assert(before.contains(h));
                        }
                    };
                }
                k += 1;
            }
            proof {
                assert forall|g: u32| genes@.contains(g) <==> hits_upto(entries, blocks, start as int, stop as int, g, j + 1) by {
                    if exists|i: int| 0 <= i < found@.len() && (#[trigger] found@[i]).2 == g {
                        let i = choose|i: int| 0 <= i < found@.len() && (#[trigger] found@[i]).2 == g;
                        assert(entries.contains(found@[i]));
                        assert(block_hits(entries, blocks[j as int], g));
                    }
                    if hits_upto(entries, blocks, start as int, stop as int, g, j + 1) {
                        let jj = choose|jj: int|
                            0 <= jj < j + 1 && block_in_chunk(blocks[jj].0 as int, blocks[jj].1 as int, start as int, stop as int)
                                && #[trigger] block_hits(entries, blocks[jj], g);
                        if jj == j {
                            let x = choose|x: TreeEntry| #[trigger] entries.contains(x) && x.2 == g
                                && overlaps(x.0 as int, x.1 as int, b.0 as int, b.1 as int);
                            assert(found@.contains(x));
                            let i = choose|i: int| 0 <= i < found@.len() && found@[i] == x;
                            assert(found@[i].2 == g);
                        } else {
                            assert(hits_upto(entries, blocks, start as int, stop as int, g, j as int));
                        }
                    }
                };
            }
        } else {
            proof {
                assert forall|g: u32| genes@.contains(g) <==> hits_upto(entries, blocks, start as int, stop as int, g, j + 1) by {
                    if hits_upto(entries, blocks, start as int, stop as int, g, j + 1) {
                        let jj = choose|jj: int|
                            0 <= jj < j + 1 && block_in_chunk(blocks[jj].0 as int, blocks[jj].1 as int, start as int, stop as int)
                                && #[trigger] block_hits(entries, blocks[jj], g);
                        if jj < j {
                            assert(hits_upto(entries, blocks, start as int, stop as int, g, j as int));
                        }
                    }
                };
            }
        }
        j += 1;
    }
    genes
}

/// A feature that a record touches is a feature of the tree.
proof fn lemma_hit_is_feature(entries: Set<TreeEntry>, blocks: Seq<(u32, u32)>, start: int, stop: int, g: u32, gene_count: nat)
    requires
        read_hits(entries, blocks, start, stop, g),
        forall|x: TreeEntry| #[trigger] entries.contains(x) ==> (x.2 as nat) < gene_count,
    ensures
        (g as nat) < gene_count,
{
    let j = choose|j: int|
        0 <= j < blocks.len() && block_in_chunk(blocks[j].0 as int, blocks[j].1 as int, start, stop)
            && #[trigger] block_hits(entries, blocks[j], g);
    let x = choose|x: TreeEntry| #[trigger] entries.contains(x) && x.2 == g
        && overlaps(x.0 as int, x.1 as int, blocks[j].0 as int, blocks[j].1 as int);
}

fn bytes_equal(a: &Vec<u8>, b: &Vec<u8>) -> (r: bool)
    ensures
        r == (a@ == b@),
{
    if a.len() != b.len() {
        return false;
    }
    let mut i: usize = 0;
    while i < a.len()
        invariant
            a@.len() == b@.len(),
            0 <= i <= a@.len(),
            forall|k: int| 0 <= k < i ==> a@[k] == b@[k],
        decreases a@.len() - i,
    {
        if a[i] != b[i] {
            return false;
        }
        i += 1;
    }
    assert(a@ =~= b@);
    true
}

fn copy_bytes(a: &Vec<u8>) -> (r: Vec<u8>)
    ensures
        r@ == a@,
{
    let mut r: Vec<u8> = Vec::new();
    let mut i: usize = 0;
    while i < a.len()
        invariant
            0 <= i <= a@.len(),
            r@ == a@.take(i as int),
        decreases a@.len() - i,
    {
        r.push(a[i]);
        assert(a@.take(i + 1) =~= a@.take(i as int).push(a@[i as int]));
        i += 1;
    }
    assert(a@.take(a@.len() as int) =~= a@);
    r
}

/// Whether the multimapper table holds the pair of feature `g` and query name `q`.
pub open spec fn table_has(table: Seq<(u32, Vec<u8>)>, g: u32, q: Seq<u8>) -> bool {
    exists|k: int| 0 <= k < table.len() && (#[trigger] table[k]).0 == g && table[k].1@ == q
}

fn find_pair(table: &Vec<(u32, Vec<u8>)>, g: u32, q: &Vec<u8>) -> (r: bool)
    ensures
        r == table_has(table@, g, q@),
{
    let mut k: usize = 0;
    while k < table.len()
        invariant
            0 <= k <= table@.len(),
            forall|m: int| 0 <= m < k ==> !((#[trigger] table@[m]).0 == g && table@[m].1@ == q@),
        decreases table@.len() - k,
    {
        if table[k].0 == g && bytes_equal(&table[k].1, q) {
            return true;
        }
        k += 1;
    }
    false
}

/// Whether `g` occurs among the first `k` elements of `s`.
pub open spec fn in_prefix(s: Seq<u32>, k: int, g: u32) -> bool {
    exists|m: int| 0 <= m < k && s[m] == g
}

/// Counts the reads of one chunk per feature. A uniquely mapped record adds 1
/// to each feature it touches, however many of its blocks touch it; a
/// multi-mapped record is remembered by query name for each feature it touches,
/// and each feature gains 1 per distinct name.
pub fn count_reads_in_region_unstranded(
    reads: &Vec<AlignedRead>,
    tree: &OurTree,
    start: u64,
    stop: u64,
    gene_count: u32,
) -> (r: Vec<u32>)
    requires
        tree_wf(*tree, gene_count as nat),
        reads@.len() <= u32::MAX,
    ensures
        r@.len() == gene_count,
        forall|g: int| 0 <= g < gene_count ==> #[trigger] r@[g] == feature_count(entry_set(*tree), reads@, start as int, stop as int, g as u32),
{
    let ghost entries = entry_set(*tree);
    let ghost lo = start as int;
    let ghost hi = stop as int;
    let mut result: Vec<u32> = Vec::new();
    let mut z: u32 = 0;
    while z < gene_count
        invariant
            0 <= z <= gene_count,
            result@.len() == z,
            forall|g: int| 0 <= g < z ==> #[trigger] result@[g] == 0,
        decreases gene_count - z,
    {
        result.push(0);
        z += 1;
    }
    let mut table: Vec<(u32, Vec<u8>)> = Vec::new();
    let mut i: usize = 0;
    while i < reads.len()
        invariant
            entries == entry_set(*tree),
            lo == start as int,
            hi == stop as int,
            tree_wf(*tree, gene_count as nat),
            reads@.len() <= u32::MAX,
            0 <= i <= reads@.len(),
            result@.len() == gene_count,
            forall|g: int| 0 <= g < gene_count ==> #[trigger] result@[g] == feature_count(entries, reads@.take(i as int), lo, hi, g as u32),
            forall|g: u32, q: Seq<u8>| table_has(table@, g, q) <==> #[trigger] multi_names(entries, reads@.take(i as int), lo, hi, g).contains(q),
        decreases reads@.len() - i,
    {
        let read = &reads[i];
        let genes = read_features(tree, read, start, stop);
        let ghost pre = reads@.take(i as int);
        let ghost post = reads@.take(i + 1);
        proof {
            assert(post.drop_last() =~= pre);
            assert(post.last() == reads@[i as int]);
        }
        let unique = match read.nh {
            None => true,
            Some(v) => v == 1,
        };
        let mut k: usize = 0;
        if unique {
            while k < genes.len()
                invariant
                    entries == entry_set(*tree),
                    lo == start as int,
                    hi == stop as int,
                    tree_wf(*tree, gene_count as nat),
                    reads@.len() <= u32::MAX,
                    0 <= i < reads@.len(),
                    *read == reads@[i as int],
                    is_unique(read.nh),
                    pre == reads@.take(i as int),
                    genes@.no_duplicates(),
                    forall|g: u32| genes@.contains(g) <==> read_hits(entries, read.blocks@, lo, hi, g),
                    0 <= k <= genes@.len(),
                    result@.len() == gene_count,
                    forall|g: int| 0 <= g < gene_count ==> #[trigger] result@[g] == feature_count(entries, pre, lo, hi, g as u32)
                        + if in_prefix(genes@, k as int, g as u32) { 1nat } else { 0nat },
                decreases genes@.len() - k,
            {
                let g = genes[k];
                proof {
                    assert(genes@.contains(g));
                    lemma_hit_is_feature(entries, read.blocks@, lo, hi, g, gene_count as nat);
                    lemma_count_bounded(entries, pre, lo, hi, g);
                    if in_prefix(genes@, k as int, g) {
                        let m = choose|m: int| 0 <= m < k && genes@[m] == g;
                        assert(genes@[m] == genes@[k as int]);
                    }
                }
                let c = result[g as usize];
                result.set(g as usize, c + 1);
                proof {
                    assert forall|h: int| 0 <= h < gene_count implies #[trigger] result@[h] == feature_count(entries, pre, lo, hi, h as u32)
                        + if in_prefix(genes@, k + 1, h as u32) { 1nat } else { 0nat } by {
                        if h == g as int {
                            assert(genes@[k as int] == h as u32);
                        } else if in_prefix(genes@, k + 1, h as u32) {
                            let m = choose|m: int| 0 <= m < k + 1 && genes@[m] == h as u32;
                            assert(in_prefix(genes@, k as int, h as u32));
                        }
                    };
                }
                k += 1;
            }
            proof {
                assert forall|h: int| 0 <= h < gene_count implies #[trigger] result@[h] == feature_count(entries, post, lo, hi, h as u32) by {
                    if in_prefix(genes@, k as int, h as u32) {
                        let m = choose|m: int| 0 <= m < k && genes@[m] == h as u32;
                        assert(genes@.contains(h as u32));
                    }
                    if read_hits(entries, read.blocks@, lo, hi, h as u32) {
                        assert(genes@.contains(h as u32));
                        let m = choose|m: int| 0 <= m < genes@.len() && genes@[m] == h as u32;
                        assert(in_prefix(genes@, k as int, h as u32));
                    }
                };
                assert forall|g: u32, q: Seq<u8>| table_has(table@, g, q) <==> #[trigger] multi_names(entries, post, lo, hi, g).contains(q) by {
                    assert(multi_names(entries, post, lo, hi, g) == multi_names(entries, pre, lo, hi, g));
                };
            }
        } else {
            while k < genes.len()
                invariant
                    entries == entry_set(*tree),
                    lo == start as int,
                    hi == stop as int,
                    tree_wf(*tree, gene_count as nat),
                    reads@.len() <= u32::MAX,
                    0 <= i < reads@.len(),
                    *read == reads@[i as int],
                    !is_unique(read.nh),
                    pre == reads@.take(i as int),
                    genes@.no_duplicates(),
                    forall|g: u32| genes@.contains(g) <==> read_hits(entries, read.blocks@, lo, hi, g),
                    0 <= k <= genes@.len(),
                    result@.len() == gene_count,
                    forall|g: int| 0 <= g < gene_count ==> #[trigger] result@[g] == feature_count(entries, pre, lo, hi, g as u32)
                        + if in_prefix(genes@, k as int, g as u32) && !multi_names(entries, pre, lo, hi, g as u32).contains(read.qname@) { 1nat } else { 0nat },
                    forall|g: u32, q: Seq<u8>| table_has(table@, g, q) <==> (#[trigger] multi_names(entries, pre, lo, hi, g).contains(q)
                        || (q == read.qname@ && in_prefix(genes@, k as int, g))),
                decreases genes@.len() - k,
            {
                let g = genes[k];
                proof {
                    assert(genes@.contains(g));
                    lemma_hit_is_feature(entries, read.blocks@, lo, hi, g, gene_count as nat);
                    lemma_count_bounded(entries, pre, lo, hi, g);
                    if in_prefix(genes@, k as int, g) {
                        let m = choose|m: int| 0 <= m < k && genes@[m] == g;
                        assert(genes@[m] == genes@[k as int]);
                    }
                }
                let seen = find_pair(&table, g, &read.qname);
                let ghost old_table = table@;
                let ghost k0 = k as int;
                if !seen {
                    table.push((g, copy_bytes(&read.qname)));
                    let c = result[g as usize];
                    result.set(g as usize, c + 1);
                }
                k += 1;
                proof {
                    assert forall|h: u32, q: Seq<u8>| table_has(table@, h, q) <==> (#[trigger] multi_names(entries, pre, lo, hi, h).contains(q)
                        || (q == read.qname@ && in_prefix(genes@, k as int, h))) by {
                        if table_has(table@, h, q) {
                            let m = choose|m: int| 0 <= m < table@.len() && (#[trigger] table@[m]).0 == h && table@[m].1@ == q;
                            if m < old_table.len() {
                                assert(old_table[m] == table@[m]);
                                assert(table_has(old_table, h, q));
                                if !multi_names(entries, pre, lo, hi, h).contains(q) {
                                    let mm = choose|mm: int| 0 <= mm < k0 && genes@[mm] == h;
                                    assert(in_prefix(genes@, k as int, h));
                                }
                            } else {
                                assert(genes@[k0] == h);
                                assert(in_prefix(genes@, k as int, h));
                            }
                        }
                        if multi_names(entries, pre, lo, hi, h).contains(q) {
                            assert(table_has(old_table, h, q));
                            let m = choose|m: int| 0 <= m < old_table.len() && (#[trigger] old_table[m]).0 == h && old_table[m].1@ == q;
                            assert(table@[m] == old_table[m]);
                        } else if q == read.qname@ && in_prefix(genes@, k as int, h) {
                            let mm = choose|mm: int| 0 <= mm < k as int && genes@[mm] == h;
                            if mm < k0 {
                                assert(in_prefix(genes@, k0, h));
                                assert(table_has(old_table, h, q));
                                let m = choose|m: int| 0 <= m < old_table.len() && (#[trigger] old_table[m]).0 == h && old_table[m].1@ == q;
                                assert(table@[m] == old_table[m]);
                            } else if seen {
                                assert(table_has(old_table, h, q));
                            } else {
                                let m = old_table.len() as int;
                                assert(table@[m].0 == h && table@[m].1@ == q);
                            }
                        }
                    };
                    assert forall|h: int| 0 <= h < gene_count implies #[trigger] result@[h] == feature_count(entries, pre, lo, hi, h as u32)
                        + if in_prefix(genes@, k as int, h as u32) && !multi_names(entries, pre, lo, hi, h as u32).contains(read.qname@) { 1nat } else { 0nat } by {
                        if h == g as int {
                            assert(genes@[k0] == h as u32);
                            if seen {
                                assert(table_has(old_table, g, read.qname@));
                                if !multi_names(entries, pre, lo, hi, g).contains(read.qname@) {
                                    assert(in_prefix(genes@, k0, g));
                                }
                            }
                        } else if in_prefix(genes@, k as int, h as u32) {
                            let m = choose|m: int| 0 <= m < k as int && genes@[m] == h as u32;
                            assert(in_prefix(genes@, k0, h as u32));
                        }
                    };
                }
            }
            proof {
                assert forall|h: u32| #[trigger] in_prefix(genes@, k as int, h) <==> read_hits(entries, read.blocks@, lo, hi, h) by {
                    if in_prefix(genes@, k as int, h) {
                        let m = choose|m: int| 0 <= m < k && genes@[m] == h;
                        assert(genes@.contains(h));
                    }
                    if read_hits(entries, read.blocks@, lo, hi, h) {
                        assert(genes@.contains(h));
                        let m = choose|m: int| 0 <= m < genes@.len() && genes@[m] == h;
                    }
                };
                assert forall|h: int| 0 <= h < gene_count implies #[trigger] result@[h] == feature_count(entries, post, lo, hi, h as u32) by {
                    lemma_count_bounded(entries, pre, lo, hi, h as u32);
                    assert(in_prefix(genes@, k as int, h as u32) <==> read_hits(entries, read.blocks@, lo, hi, h as u32));
                };
                assert forall|g: u32, q: Seq<u8>| table_has(table@, g, q) <==> #[trigger] multi_names(entries, post, lo, hi, g).contains(q) by {
                    assert(in_prefix(genes@, k as int, g) <==> read_hits(entries, read.blocks@, lo, hi, g));
                    assert(post.last() == *read);
                    let before = multi_names(entries, pre, lo, hi, g);
                    if read_hits(entries, read.blocks@, lo, hi, g) {
                        assert(multi_names(entries, post, lo, hi, g) == before.insert(read.qname@));
                    } else {
                        assert(multi_names(entries, post, lo, hi, g) == before);
                    }
                    if before.contains(q) {
                        assert(table_has(table@, g, q));
                    }
                };
            }
        }
        i += 1;
    }
    assert(reads@.take(reads@.len() as int) =~= reads@);
    result
}

proof fn lemma_push(entries: Set<TreeEntry>, reads: Seq<AlignedRead>, start: int, stop: int, read: AlignedRead, g: u32)
    ensures
        unique_count(entries, reads.push(read), start, stop, g) == unique_count(entries, reads, start, stop, g)
            + if is_unique(read.nh) && read_hits(entries, read.blocks@, start, stop, g) { 1nat } else { 0nat },
        multi_names(entries, reads.push(read), start, stop, g) == if !is_unique(read.nh) && read_hits(entries, read.blocks@, start, stop, g) {
            multi_names(entries, reads, start, stop, g).insert(read.qname@)
        } else {
            multi_names(entries, reads, start, stop, g)
        },
{
    assert(reads.push(read).drop_last() =~= reads);
}

/// A uniquely mapped read with one block, attributed to the chunk and lying
/// inside one exon of a feature that no other feature's interval overlaps
/// there, adds exactly 1 to that feature's count and nothing to any other.
pub proof fn lemma_unique_read_in_exon(
    entries: Set<TreeEntry>,
    reads: Seq<AlignedRead>,
    start: int,
    stop: int,
    read: AlignedRead,
    x: TreeEntry,
)
    requires
        is_unique(read.nh),
        read.blocks@.len() == 1,
        block_in_chunk(read.blocks@[0].0 as int, read.blocks@[0].1 as int, start, stop),
        entries.contains(x),
        x.0 <= read.blocks@[0].0 < read.blocks@[0].1 <= x.1,
        forall|y: TreeEntry| #[trigger] entries.contains(y)
            && overlaps(y.0 as int, y.1 as int, read.blocks@[0].0 as int, read.blocks@[0].1 as int) ==> y.2 == x.2,
    ensures
        forall|g: u32| #[trigger] feature_count(entries, reads.push(read), start, stop, g)
            == feature_count(entries, reads, start, stop, g) + if g == x.2 { 1nat } else { 0nat },
{
    let b = read.blocks@[0];
    assert forall|g: u32| #[trigger] feature_count(entries, reads.push(read), start, stop, g)
        == feature_count(entries, reads, start, stop, g) + if g == x.2 { 1nat } else { 0nat } by {
        lemma_push(entries, reads, start, stop, read, g);
        if g == x.2 {
            assert(block_hits(entries, b, g));
            assert(read_hits(entries, read.blocks@, start, stop, g));
        } else if read_hits(entries, read.blocks@, start, stop, g) {
            let j = choose|j: int|
                0 <= j < read.blocks@.len() && block_in_chunk(read.blocks@[j].0 as int, read.blocks@[j].1 as int, start, stop)
                    && #[trigger] block_hits(entries, read.blocks@[j], g);
            let y = choose|y: TreeEntry| #[trigger] entries.contains(y) && y.2 == g
                && overlaps(y.0 as int, y.1 as int, read.blocks@[j].0 as int, read.blocks@[j].1 as int);
            assert(j == 0);
        }
    };
}

/// A uniquely mapped read attributed to the chunk through some block that
/// overlaps feature `f` adds exactly 1 to `f`'s count, however many of its
/// blocks overlap `f`.
pub proof fn lemma_unique_read_counts_once(
    entries: Set<TreeEntry>,
    reads: Seq<AlignedRead>,
    start: int,
    stop: int,
    read: AlignedRead,
    f: u32,
)
    requires
        is_unique(read.nh),
        exists|j: int|
            0 <= j < read.blocks@.len() && block_in_chunk(read.blocks@[j].0 as int, read.blocks@[j].1 as int, start, stop)
                && #[trigger] block_hits(entries, read.blocks@[j], f),
    ensures
        feature_count(entries, reads.push(read), start, stop, f) == feature_count(entries, reads, start, stop, f) + 1,
{
    lemma_push(entries, reads, start, stop, read, f);
}

/// Multi-mapped records that share one query name and all touch feature `f`
/// add at most 1 to `f`'s count: exactly 1 when no earlier multi-mapped record
/// of that name touched `f`, else nothing.
pub proof fn lemma_multi_records_count_once(
    entries: Set<TreeEntry>,
    reads: Seq<AlignedRead>,
    recs: Seq<AlignedRead>,
    start: int,
    stop: int,
    f: u32,
    q: Seq<u8>,
)
    requires
        recs.len() >= 1,
        forall|i: int| 0 <= i < recs.len() ==> !is_unique((#[trigger] recs[i]).nh) && recs[i].qname@ == q
            && read_hits(entries, recs[i].blocks@, start, stop, f),
    ensures
        unique_count(entries, reads + recs, start, stop, f) == unique_count(entries, reads, start, stop, f),
        multi_names(entries, reads + recs, start, stop, f) == multi_names(entries, reads, start, stop, f).insert(q),
        feature_count(entries, reads + recs, start, stop, f) == feature_count(entries, reads, start, stop, f)
            + if multi_names(entries, reads, start, stop, f).contains(q) { 0nat } else { 1nat },
    decreases recs.len(),
{
    let last = recs.last();
    assert(last == recs[recs.len() - 1]);
    if recs.len() == 1 {
        assert(reads + recs =~= reads.push(last));
        lemma_push(entries, reads, start, stop, last, f);
    } else {
        let init = recs.drop_last();
        assert forall|i: int| 0 <= i < init.len() implies !is_unique((#[trigger] init[i]).nh) && init[i].qname@ == q
            && read_hits(entries, init[i].blocks@, start, stop, f) by {
            assert(init[i] == recs[i]);
        };
        lemma_multi_records_count_once(entries, reads, init, start, stop, f, q);
        assert(reads + recs =~= (reads + init).push(last));
        lemma_push(entries, reads + init, start, stop, last, f);
        assert(multi_names(entries, reads, start, stop, f).insert(q).insert(q) =~= multi_names(entries, reads, start, stop, f).insert(q));
    }
    lemma_count_bounded(entries, reads, start, stop, f);
}

/// Whether a block is attributed to a chunk depends on its start alone: for a
/// block `[b0, b1)` with `b0 <= b1`, the chunk `[start, stop)` takes it exactly
/// when `start <= b0 < stop`.
pub proof fn lemma_block_attribution(b0: int, b1: int, start: int, stop: int)
    requires
        b0 <= b1,
    ensures
        block_in_chunk(b0, b1, start, stop) <==> start <= b0 < stop,
{
}

/// A block that starts within the reference sequence, even one that crosses a
/// chunk boundary, is attributed to exactly one chunk of a partition.
pub proof fn lemma_block_in_one_chunk(chunks: Seq<Chunk>, entries: Set<TreeEntry>, length: int, b0: int, b1: int)
    requires
        partition_ok(chunks, entries, length),
        0 <= b0 <= b1,
        b0 < length,
    ensures
        exists|k: int| 0 <= k < chunks.len() && block_in_chunk(b0, b1, (#[trigger] chunks[k]).start as int, chunks[k].stop as int),
        forall|k1: int, k2: int|
            0 <= k1 < chunks.len() && 0 <= k2 < chunks.len()
                && block_in_chunk(b0, b1, (#[trigger] chunks[k1]).start as int, chunks[k1].stop as int)
                && block_in_chunk(b0, b1, (#[trigger] chunks[k2]).start as int, chunks[k2].stop as int) ==> k1 == k2,
{
    assert(covered(chunks, b0));
    let k = choose|k: int| 0 <= k < chunks.len() && (#[trigger] chunks[k]).start <= b0 < chunks[k].stop;
    assert(block_in_chunk(b0, b1, chunks[k].start as int, chunks[k].stop as int));
    assert forall|k1: int, k2: int|
        0 <= k1 < chunks.len() && 0 <= k2 < chunks.len()
            && block_in_chunk(b0, b1, (#[trigger] chunks[k1]).start as int, chunks[k1].stop as int)
            && block_in_chunk(b0, b1, (#[trigger] chunks[k2]).start as int, chunks[k2].stop as int) implies k1 == k2 by {
        if k1 < k2 {
            assert(chunks[k1].stop <= chunks[k2].start);
        } else if k2 < k1 {
            assert(chunks[k2].stop <= chunks[k1].start);
        }
    };
}

/// The counts of a chunk are determined by the reads, the index and the range:
/// two scans of the same input give the same vector.
pub proof fn lemma_counts_determined(
    entries: Set<TreeEntry>,
    reads: Seq<AlignedRead>,
    start: int,
    stop: int,
    gene_count: nat,
    r1: Seq<u32>,
    r2: Seq<u32>,
)
    requires
        r1.len() == gene_count,
        r2.len() == gene_count,
        forall|g: int| 0 <= g < gene_count ==> #[trigger] r1[g] == feature_count(entries, reads, start, stop, g as u32),
        forall|g: int| 0 <= g < gene_count ==> #[trigger] r2[g] == feature_count(entries, reads, start, stop, g as u32),
    ensures
        r1 == r2,
{
    assert(r1 =~= r2);
}

} // verus!
