use read_counts::chunks::{chunk_reference, next_boundary, CHUNK_SIZE};
use read_counts::counting::{block_in_chunk_exec, count_reads_in_region_unstranded, read_features, AlignedRead};
use read_counts::totals::{add_hashmaps, chunk_result, merge_results, scan_result, CountTable};
use read_counts::tree::{build_tree, BuildError, FeatureDescription, OurTree};

fn feature(id: &str, strand: i8, starts: Vec<u32>, ends: Vec<u32>) -> FeatureDescription {
    FeatureDescription { id: id.to_string(), strand, exon_starts: starts, exon_ends: ends }
}

fn read(blocks: Vec<(u32, u32)>, nh: Option<i64>, name: &str) -> AlignedRead {
    AlignedRead { blocks, nh, qname: name.as_bytes().to_vec() }
}

fn gene_a() -> (OurTree, Vec<String>) {
    build_tree(&vec![feature("geneA", 1, vec![100], vec![200])]).unwrap()
}

fn get(t: &CountTable, k: &str) -> Option<u32> {
    t.iter().find(|e| e.0 == k).map(|e| e.1)
}

#[test]
fn build_tree_assigns_feature_indices() {
    let (tree, ids) = build_tree(&vec![
        feature("g0", 1, vec![10, 50], vec![20, 60]),
        feature("g1", -1, vec![], vec![]),
        feature("g2", -1, vec![15], vec![30]),
    ])
    .unwrap();
    assert_eq!(ids, vec!["g0".to_string(), "g1".to_string(), "g2".to_string()]);
    let r = read(vec![(18, 19)], None, "r");
    let mut hit = read_features(&tree, &r, 0, 1000);
    hit.sort();
    assert_eq!(hit, vec![0, 2]);
    let r = read(vec![(55, 56)], None, "r");
    assert_eq!(read_features(&tree, &r, 0, 1000), vec![0]);
}

#[test]
fn build_tree_rejects_mismatched_bounds() {
    let r = build_tree(&vec![feature("g0", 1, vec![1], vec![2]), feature("g1", 1, vec![1, 5], vec![2])]);
    assert_eq!(r.err(), Some(BuildError::MismatchedBounds(1)));
}

#[test]
fn build_tree_rejects_reversed_exon() {
    let r = build_tree(&vec![feature("g0", 1, vec![10], vec![5])]);
    assert_eq!(r.err(), Some(BuildError::ReversedExon(0)));
}

#[test]
fn partition_without_features_is_naive() {
    let (tree, _) = build_tree(&vec![]).unwrap();
    let chr = "chr1".to_string();
    let chunks = chunk_reference(&chr, 3, &tree, 2_000_000);
    let bounds: Vec<(u64, u64)> = chunks.iter().map(|c| (c.start, c.stop)).collect();
    assert_eq!(bounds, vec![(0, 1_000_000), (1_000_000, 2_000_000)]);
    assert!(chunks.iter().all(|c| c.chr == "chr1" && c.tid == 3));
    let empty = chunk_reference(&chr, 0, &tree, 0);
    assert_eq!(empty.len(), 1);
    assert_eq!((empty[0].start, empty[0].stop), (0, 1_000_000));
}

#[test]
fn partition_extends_past_exon_on_naive_boundary() {
    let (tree, _) = build_tree(&vec![feature("g", 1, vec![999_990], vec![1_000_010])]).unwrap();
    assert_eq!(next_boundary(&tree, CHUNK_SIZE), 1_000_011);
    assert_eq!(next_boundary(&tree, 500), 500);
    let chunks = chunk_reference(&"chr1".to_string(), 0, &tree, 2_000_000);
    let bounds: Vec<(u64, u64)> = chunks.iter().map(|c| (c.start, c.stop)).collect();
    assert_eq!(bounds, vec![(0, 1_000_011), (1_000_011, 2_000_011)]);
}

#[test]
fn partition_follows_chained_exons() {
    let (tree, _) = build_tree(&vec![
        feature("a", 1, vec![999_000], vec![1_000_500]),
        feature("b", 1, vec![1_000_400], vec![1_002_000]),
    ])
    .unwrap();
    assert_eq!(next_boundary(&tree, CHUNK_SIZE), 1_002_001);
}

#[test]
fn straddling_block_counted_in_one_chunk() {
    // chunks [0, 100) and [100, 200); block [90, 110) crosses the cut
    assert!(block_in_chunk_exec(90, 110, 0, 100));
    assert!(!block_in_chunk_exec(90, 110, 100, 200));
    assert!(!block_in_chunk_exec(10, 20, 100, 200));
    assert!(!block_in_chunk_exec(200, 210, 100, 200));
    assert!(block_in_chunk_exec(100, 100, 100, 200));
    let (tree, _) = build_tree(&vec![feature("g", 1, vec![95], vec![105])]).unwrap();
    let reads = vec![read(vec![(90, 110)], None, "r")];
    let left = count_reads_in_region_unstranded(&reads, &tree, 0, 100, 1);
    let right = count_reads_in_region_unstranded(&reads, &tree, 100, 200, 1);
    assert_eq!(left[0] + right[0], 1);
}

#[test]
fn unique_read_in_one_exon_counts_once() {
    let (tree, _) = build_tree(&vec![
        feature("g0", 1, vec![100], vec![200]),
        feature("g1", 1, vec![300], vec![400]),
    ])
    .unwrap();
    let reads = vec![read(vec![(120, 150)], None, "r1")];
    assert_eq!(count_reads_in_region_unstranded(&reads, &tree, 0, 1_000_000, 2), vec![1, 0]);
}

#[test]
fn spliced_read_counts_once_per_feature() {
    let (tree, _) = build_tree(&vec![feature("g", 1, vec![100, 300], vec![200, 400])]).unwrap();
    let reads = vec![read(vec![(150, 200), (300, 350), (360, 380)], Some(1), "r1")];
    assert_eq!(count_reads_in_region_unstranded(&reads, &tree, 0, 1_000_000, 1), vec![1]);
}

#[test]
fn multimapped_read_counts_once_per_name() {
    let (tree, _) = build_tree(&vec![feature("g", 1, vec![100, 300], vec![200, 400])]).unwrap();
    let reads = vec![
        read(vec![(110, 140)], Some(3), "m"),
        read(vec![(150, 190), (310, 320)], Some(3), "m"),
        read(vec![(320, 330)], Some(3), "m"),
        read(vec![(330, 340)], Some(2), "n"),
    ];
    assert_eq!(count_reads_in_region_unstranded(&reads, &tree, 0, 1_000_000, 1), vec![2]);
}

#[test]
fn end_to_end_unique_reads() {
    let (tree, ids) = gene_a();
    let reads = vec![
        read(vec![(120, 150)], None, "r1"),
        read(vec![(180, 210)], None, "r2"),
        read(vec![(500, 600)], None, "r3"),
    ];
    let chunks = chunk_reference(&"chr1".to_string(), 0, &tree, 2_000_000);
    assert_eq!(chunks.len(), 2);
    let mut tables = Vec::new();
    for c in chunks.iter() {
        let mine: Vec<AlignedRead> = reads
            .iter()
            .filter(|r| r.blocks.iter().any(|b| (b.0 as u64) < c.stop && (b.1 as u64) > c.start))
            .map(|r| read(r.blocks.clone(), r.nh, std::str::from_utf8(&r.qname).unwrap()))
            .collect();
        let counts = count_reads_in_region_unstranded(&mine, &tree, c.start, c.stop, ids.len() as u32);
        tables.push(chunk_result(&counts, &ids, &c.chr));
    }
    let result = merge_results(tables);
    assert_eq!(get(&result, "geneA"), Some(2));
    assert_eq!(get(&result, "_total"), Some(2));
    assert_eq!(get(&result, "_chr1"), Some(2));
}

#[test]
fn end_to_end_multimapped_read() {
    let (tree, ids) = gene_a();
    let before = vec![read(vec![(120, 150)], None, "r1")];
    let mut after = vec![read(vec![(120, 150)], None, "r1")];
    after.push(read(vec![(110, 130)], Some(2), "mm"));
    after.push(read(vec![(160, 190)], Some(2), "mm"));
    let c0 = count_reads_in_region_unstranded(&before, &tree, 0, 1_000_000, 1);
    let c1 = count_reads_in_region_unstranded(&after, &tree, 0, 1_000_000, 1);
    assert_eq!(c1[0], c0[0] + 1);
    let t = chunk_result(&c1, &ids, &"chr1".to_string());
    assert_eq!(get(&t, "geneA"), Some(2));
}

#[test]
fn counting_twice_gives_same_result() {
    let (tree, _) = gene_a();
    let reads = vec![read(vec![(120, 150)], None, "a"), read(vec![(130, 140)], Some(4), "b")];
    let a = count_reads_in_region_unstranded(&reads, &tree, 0, 1_000_000, 1);
    let b = count_reads_in_region_unstranded(&reads, &tree, 0, 1_000_000, 1);
    assert_eq!(a, b);
    assert_eq!(a, vec![2]);
}

#[test]
fn reads_outside_chunk_are_ignored() {
    let (tree, _) = gene_a();
    let reads = vec![read(vec![(120, 150)], None, "a")];
    assert_eq!(count_reads_in_region_unstranded(&reads, &tree, 1_000_000, 2_000_000, 1), vec![0]);
    let empty: Vec<AlignedRead> = vec![];
    assert_eq!(count_reads_in_region_unstranded(&empty, &tree, 0, 1_000_000, 1), vec![0]);
}

#[test]
fn chunk_result_records_totals() {
    let ids = vec!["a".to_string(), "b".to_string(), "c".to_string()];
    let t = chunk_result(&vec![3, 0, 4], &ids, &"chrX".to_string());
    assert_eq!(get(&t, "a"), Some(3));
    assert_eq!(get(&t, "b"), Some(0));
    assert_eq!(get(&t, "c"), Some(4));
    assert_eq!(get(&t, "_total"), Some(7));
    assert_eq!(get(&t, "_chrX"), Some(7));
    assert_eq!(t.len(), 5);
}

#[test]
fn failed_chunk_contributes_zero_totals() {
    let t = chunk_result(&vec![], &vec![], &"chr2".to_string());
    assert_eq!(get(&t, "_total"), Some(0));
    assert_eq!(get(&t, "_chr2"), Some(0));
    assert_eq!(t.len(), 2);
}

#[test]
fn merge_sums_equal_keys() {
    let a: CountTable = vec![("x".to_string(), 1), ("_total".to_string(), 1)];
    let b: CountTable = vec![("y".to_string(), 5), ("_total".to_string(), 5), ("x".to_string(), 2)];
    let r = add_hashmaps(a, b);
    assert_eq!(get(&r, "x"), Some(3));
    assert_eq!(get(&r, "y"), Some(5));
    assert_eq!(get(&r, "_total"), Some(6));
    assert_eq!(r.len(), 3);
}

#[test]
fn totals_add_up_over_references() {
    let t1 = chunk_result(&vec![1, 2], &vec!["a".to_string(), "b".to_string()], &"chr1".to_string());
    let t2 = chunk_result(&vec![4], &vec!["a".to_string()], &"chr1".to_string());
    let t3 = chunk_result(&vec![8], &vec!["z".to_string()], &"chr2".to_string());
    let r = merge_results(vec![t1, t2, t3]);
    assert_eq!(get(&r, "a"), Some(5));
    assert_eq!(get(&r, "b"), Some(2));
    assert_eq!(get(&r, "z"), Some(8));
    assert_eq!(get(&r, "_chr1"), Some(7));
    assert_eq!(get(&r, "_chr2"), Some(8));
    assert_eq!(get(&r, "_total"), Some(15));
    assert_eq!(merge_results(vec![]).len(), 0);
}

#[test]
fn scan_result_zero_on_failure() {
    let ids = vec!["a".to_string()];
    let ok = scan_result(&Some(vec![6]), &ids, &"chr3".to_string());
    assert_eq!(get(&ok, "a"), Some(6));
    assert_eq!(get(&ok, "_chr3"), Some(6));
    let failed = scan_result(&None, &ids, &"chr3".to_string());
    assert_eq!(get(&failed, "a"), None);
    assert_eq!(get(&failed, "_total"), Some(0));
    assert_eq!(get(&failed, "_chr3"), Some(0));
}

#[test]
fn repeated_exon_is_kept_twice() {
    let (tree, ids) = build_tree(&vec![feature("g", 1, vec![10, 10], vec![20, 20])]).unwrap();
    let reads = vec![read(vec![(12, 14)], None, "r")];
    assert_eq!(count_reads_in_region_unstranded(&reads, &tree, 0, 1000, ids.len() as u32), vec![1]);
}

#[test]
fn partition_takes_largest_end_over_cut() {
    let (tree, _) = build_tree(&vec![
        feature("a", 1, vec![999_000], vec![1_000_010]),
        feature("b", 1, vec![999_000], vec![1_000_011]),
    ])
    .unwrap();
    assert_eq!(next_boundary(&tree, CHUNK_SIZE), 1_000_012);
    let c1 = chunk_reference(&"chr1".to_string(), 0, &tree, 3_000_000);
    let c2 = chunk_reference(&"chr1".to_string(), 0, &tree, 3_000_000);
    let b1: Vec<(u64, u64)> = c1.iter().map(|c| (c.start, c.stop)).collect();
    let b2: Vec<(u64, u64)> = c2.iter().map(|c| (c.start, c.stop)).collect();
    assert_eq!(b1, b2);
}
