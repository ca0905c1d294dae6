//! Partition of a reference sequence into chunks that never cut a feature interval.
use crate::tree::{OurTree, TreeEntry, entry_set, tree_find};
use vstd::prelude::*;

verus! {

/// The naive length of a chunk, in coordinate units.
pub const CHUNK_SIZE: u64 = 1_000_000;

/// A unit of counting work: a coordinate range `[start, stop)` on one reference sequence.
pub struct Chunk {
    pub chr: String,
    pub tid: u32,
    pub start: u64,
    pub stop: u64,
}

/// Whether a cut at coordinate `p` would fall inside the interval of some entry,
/// that is whether some entry `[s, e)` has `s <= p < e`.
pub open spec fn cut_inside(entries: Set<TreeEntry>, p: int) -> bool {
    exists|x: TreeEntry| #[trigger] entries.contains(x) && x.0 <= p < x.1
}

/// Whether `e` is the largest end among the intervals that hold `p`.
pub open spec fn is_max_end(entries: Set<TreeEntry>, p: int, e: int) -> bool {
    &&& exists|x: TreeEntry| #[trigger] entries.contains(x) && x.0 <= p < x.1 && x.1 == e
    &&& forall|y: TreeEntry| #[trigger] entries.contains(y) && y.0 <= p < y.1 ==> y.1 <= e
}

/// The largest end among the intervals that hold `p`.
pub open spec fn max_end(entries: Set<TreeEntry>, p: int) -> int {
    choose|e: int| is_max_end(entries, p, e)
}

/// Where a chunk proposed to end at `p` ends: while some interval holds the
/// end, it moves one past the largest end among the intervals that hold it.
pub open spec fn boundary(entries: Set<TreeEntry>, p: int) -> int
    decreases (if p >= u32::MAX { 0 } else { u32::MAX - p }),
{
    if p < u32::MAX && cut_inside(entries, p) && max_end(entries, p) > p {
        boundary(entries, max_end(entries, p) + 1)
    } else {
        p
    }
}

/// Moves a proposed chunk end to the right until no interval of the tree holds
/// it: while some interval holds the end, the end moves one past the largest
/// end among those intervals.
pub fn next_boundary(tree: &OurTree, proposed: u64) -> (r: u64)
    requires
        proposed <= u32::MAX as u64 + CHUNK_SIZE,
    ensures
        r == boundary(entry_set(*tree), proposed as int),
        r >= proposed,
        !cut_inside(entry_set(*tree), r as int),
        !cut_inside(entry_set(*tree), proposed as int) ==> r == proposed,
        r == proposed || exists|x: TreeEntry|
            #[trigger] entry_set(*tree).contains(x) && x.1 >= proposed && r == x.1 + 1,
{
    let ghost entries = entry_set(*tree);
    let mut stop: u64 = proposed;
    loop
        invariant
            entries == entry_set(*tree),
            proposed <= stop <= u32::MAX as u64 + CHUNK_SIZE,
            boundary(entries, stop as int) == boundary(entries, proposed as int),
            !cut_inside(entries, proposed as int) ==> stop == proposed,
            stop == proposed || exists|x: TreeEntry|
                #[trigger] entries.contains(x) && x.1 >= proposed && stop == x.1 + 1,
        ensures
            proposed <= stop,
            stop == boundary(entries, proposed as int),
            !cut_inside(entries, stop as int),
            !cut_inside(entries, proposed as int) ==> stop == proposed,
            stop == proposed || exists|x: TreeEntry|
                #[trigger] entries.contains(x) && x.1 >= proposed && stop == x.1 + 1,
        decreases (if stop >= u32::MAX as u64 { 0 } else { u32::MAX as u64 - stop }),
    {
        if stop >= u32::MAX as u64 {
            proof {
                if cut_inside(entries, stop as int) {
                    let x = choose|x: TreeEntry| #[trigger] entries.contains(x) && x.0 <= stop < x.1;
                }
            }
            break;
        }
        let found = tree_find(tree, stop as u32, stop as u32 + 1);
        if found.len() == 0 {
            proof {
                if cut_inside(entries, stop as int) {
                    let x = choose|x: TreeEntry| #[trigger] entries.contains(x) && x.0 <= stop < x.1;
                    assert(found@.contains(x));
                }
            }
            break;
        }
        let mut m: u32 = found[0].1;
        let mut k: usize = 1;
        while k < found.len()
            invariant
                1 <= k <= found@.len(),
                exists|i: int| 0 <= i < k && (#[trigger] found@[i]).1 == m,
                forall|i: int| 0 <= i < k ==> (#[trigger] found@[i]).1 <= m,
            decreases found@.len() - k,
        {
            if found[k].1 > m {
                m = found[k].1;
            }
            k += 1;
        }
        proof {
            let i = choose|i: int| 0 <= i < k && (#[trigger] found@[i]).1 == m;
            assert(entries.contains(found@[i]));
            assert forall|y: TreeEntry| #[trigger] entries.contains(y) && y.0 <= stop < y.1 implies y.1 <= m by {
                assert(found@.contains(y));
                let j = choose|j: int| 0 <= j < found@.len() && found@[j] == y;
            };
            assert(is_max_end(entries, stop as int, m as int));
            let e = max_end(entries, stop as int);
            assert(is_max_end(entries, stop as int, e));
            let xe = choose|x: TreeEntry| #[trigger] entries.contains(x) && x.0 <= stop < x.1 && x.1 == e;
            assert(e <= m);
            assert(m <= e);
            assert(cut_inside(entries, stop as int));
            assert(boundary(entries, stop as int) == boundary(entries, m + 1));
            assert(!cut_inside(entries, proposed as int) ==> stop != proposed);
        }
        stop = m as u64 + 1;
    }
    stop
}

/// Whether some chunk holds coordinate `p`.
pub open spec fn covered(chunks: Seq<Chunk>, p: int) -> bool {
    exists|k: int| 0 <= k < chunks.len() && (#[trigger] chunks[k]).start <= p < chunks[k].stop
}

/// The chunks of one reference sequence in order: there is at least one, they
/// start at 0, each starts where the previous one stopped, every one but the
/// first starts within the sequence, the last one reaches the sequence's
/// length, and each ends at the boundary placed from its naive end
/// `start + CHUNK_SIZE`, so no chunk end falls inside an interval of the tree.
pub open spec fn partition_ok(chunks: Seq<Chunk>, entries: Set<TreeEntry>, length: int) -> bool {
    &&& chunks.len() > 0
    &&& chunks[0].start == 0
    &&& chunks.last().stop >= length
    &&& forall|k: int| 0 <= k < chunks.len() ==> {
        &&& (k == 0 || (#[trigger] chunks[k]).start < length)
        &&& chunks[k].start + CHUNK_SIZE <= chunks[k].stop
        &&& chunks[k].stop == boundary(entries, chunks[k].start + CHUNK_SIZE)
        &&& !cut_inside(entries, chunks[k].stop as int)
    }
    &&& forall|k: int| 0 <= k < chunks.len() - 1 ==> (#[trigger] chunks[k]).stop == chunks[k + 1].start
    &&& forall|k1: int, k2: int| 0 <= k1 < k2 < chunks.len() ==> (#[trigger] chunks[k1]).stop <= (#[trigger] chunks[k2]).start
    &&& forall|p: int| 0 <= p < length ==> #[trigger] covered(chunks, p)
}

/// Splits one reference sequence of the given length into chunks, each end
/// placed by `next_boundary` from the naive end `start + CHUNK_SIZE`. A
/// sequence always yields at least one chunk.
pub fn chunk_reference(chr: &String, tid: u32, tree: &OurTree, length: u32) -> (r: Vec<Chunk>)
    ensures
        partition_ok(r@, entry_set(*tree), length as int),
        forall|k: int| 0 <= k < r@.len() ==> (#[trigger] r@[k]).chr@ == chr@ && r@[k].tid == tid,
{
    let mut chunks: Vec<Chunk> = Vec::new();
    let mut cursor: u64 = 0;
    let ghost entries = entry_set(*tree);
    let mut first: bool = true;
    while first || cursor < length as u64
        invariant
            entries == entry_set(*tree),
            first <==> chunks@.len() == 0,
            first ==> cursor == 0,
            chunks@.len() > 0 ==> chunks@[0].start == 0 && chunks@.last().stop == cursor,
            cursor <= u32::MAX as u64 + CHUNK_SIZE + 1,
            forall|k: int| 0 <= k < chunks@.len() ==> {
                &&& (k == 0 || (#[trigger] chunks@[k]).start < length)
                &&& chunks@[k].start + CHUNK_SIZE <= chunks@[k].stop
                &&& chunks@[k].stop == boundary(entries, chunks@[k].start + CHUNK_SIZE)
                &&& !cut_inside(entries, chunks@[k].stop as int)
                &&& chunks@[k].stop <= cursor
                &&& chunks@[k].chr@ == chr@
                &&& chunks@[k].tid == tid
            },
            forall|k: int| 0 <= k < chunks@.len() - 1 ==> (#[trigger] chunks@[k]).stop == chunks@[k + 1].start,
            forall|k1: int, k2: int| 0 <= k1 < k2 < chunks@.len() ==> (#[trigger] chunks@[k1]).stop <= (#[trigger] chunks@[k2]).start,
            forall|p: int| 0 <= p < cursor ==> #[trigger] covered(chunks@, p),
        decreases (if first { 1int } else { 0int }) + (if cursor >= length as u64 { 0int } else { length as u64 - cursor }),
    {
        let stop = next_boundary(tree, cursor + CHUNK_SIZE);
        let ghost old_chunks = chunks@;
        chunks.push(Chunk { chr: chr.clone(), tid, start: cursor, stop });
        proof {
            let n = old_chunks.len() as int;
            assert(chunks@[n].start == cursor);
            assert forall|p: int| 0 <= p < stop implies #[trigger] covered(chunks@, p) by {
                if p < cursor {
                    assert(covered(old_chunks, p));
                    let k = choose|k: int| 0 <= k < old_chunks.len() && (#[trigger] old_chunks[k]).start <= p < old_chunks[k].stop;
                    assert(chunks@[k] == old_chunks[k]);
                } else {
                    assert(chunks@[n].start <= p < chunks@[n].stop);
                }
            };
            assert forall|k1: int, k2: int| 0 <= k1 < k2 < chunks@.len() implies (#[trigger] chunks@[k1]).stop <= (#[trigger] chunks@[k2]).start by {
                assert(chunks@[k1] == old_chunks[k1]);
                if k2 < n {
                    assert(chunks@[k2] == old_chunks[k2]);
                }
            };
            assert forall|k: int| 0 <= k < chunks@.len() - 1 implies (#[trigger] chunks@[k]).stop == chunks@[k + 1].start by {
                assert(chunks@[k] == old_chunks[k]);
                if k + 1 < n {
                    assert(chunks@[k + 1] == old_chunks[k + 1]);
                }
            };
        }
        cursor = stop;
        first = false;
    }
    chunks
}

/// The partition is determined by the tree and the length: two chunk
/// sequences that both meet `partition_ok` have the same ranges in the same order.
pub proof fn lemma_partition_determined(c1: Seq<Chunk>, c2: Seq<Chunk>, entries: Set<TreeEntry>, length: int)
    requires
        partition_ok(c1, entries, length),
        partition_ok(c2, entries, length),
    ensures
        c1.len() == c2.len(),
        forall|k: int| 0 <= k < c1.len() ==> (#[trigger] c1[k]).start == c2[k].start && c1[k].stop == c2[k].stop,
{
    let n = if c1.len() < c2.len() { c1.len() as int } else { c2.len() as int };
    assert forall|k: int| 0 <= k < n implies (#[trigger] c1[k]).start == c2[k].start && c1[k].stop == c2[k].stop by {
        lemma_same_prefix(c1, c2, entries, length, k);
    };
    if c1.len() < c2.len() {
        assert(c1[n - 1].stop == c2[n - 1].stop);
        assert(c2[n - 1].stop == c2[n].start);
    } else if c2.len() < c1.len() {
        assert(c1[n - 1].stop == c2[n - 1].stop);
        assert(c1[n - 1].stop == c1[n].start);
    }
}

proof fn lemma_same_prefix(c1: Seq<Chunk>, c2: Seq<Chunk>, entries: Set<TreeEntry>, length: int, k: int)
    requires
        partition_ok(c1, entries, length),
        partition_ok(c2, entries, length),
        0 <= k < c1.len(),
        k < c2.len(),
    ensures
        c1[k].start == c2[k].start,
        c1[k].stop == c2[k].stop,
    decreases k,
{
    if k > 0 {
        lemma_same_prefix(c1, c2, entries, length, k - 1);
        assert(c1[k - 1].stop == c1[k].start);
        assert(c2[k - 1].stop == c2[k].start);
    }
    assert(c1[k].stop == boundary(entries, c1[k].start + CHUNK_SIZE));
    assert(c2[k].stop == boundary(entries, c2[k].start + CHUNK_SIZE));
}

/// Whether a chunk holds the whole interval of an entry.
pub open spec fn holds_interval(c: Chunk, x: TreeEntry) -> bool {
    c.start <= x.0 && x.1 <= c.stop
}

/// Partitioning is boundary-safe: every non-empty feature interval that ends
/// within the reference sequence lies whole inside exactly one chunk.
pub proof fn lemma_interval_in_one_chunk(chunks: Seq<Chunk>, entries: Set<TreeEntry>, length: int, x: TreeEntry)
    requires
        partition_ok(chunks, entries, length),
        entries.contains(x),
        x.0 < x.1,
        x.1 <= length,
    ensures
        exists|k: int| 0 <= k < chunks.len() && holds_interval(#[trigger] chunks[k], x),
        forall|k1: int, k2: int|
            0 <= k1 < chunks.len() && 0 <= k2 < chunks.len() && holds_interval(#[trigger] chunks[k1], x)
                && holds_interval(#[trigger] chunks[k2], x) ==> k1 == k2,
{
    assert(covered(chunks, x.0 as int));
    let k = choose|k: int| 0 <= k < chunks.len() && (#[trigger] chunks[k]).start <= x.0 < chunks[k].stop;
    if x.1 > chunks[k].stop {
        assert(cut_inside(entries, chunks[k].stop as int));
    }
    assert(holds_interval(chunks[k], x));
    assert forall|k1: int, k2: int|
        0 <= k1 < chunks.len() && 0 <= k2 < chunks.len() && holds_interval(#[trigger] chunks[k1], x)
            && holds_interval(#[trigger] chunks[k2], x) implies k1 == k2 by {
        if k1 < k2 {
            assert(chunks[k1].stop <= chunks[k2].start);
        } else if k2 < k1 {
            assert(chunks[k2].stop <= chunks[k1].start);
        }
    };
}

} // verus!
