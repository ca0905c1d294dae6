//! The interval index of one reference sequence's features.
use bio::data_structures::interval_tree::IntervalTree;
use vstd::multiset::Multiset;
use vstd::prelude::*;

verus! {

/// An interval tree whose entries map `[start, end)` to `(feature index, strand)`.
pub type OurTree = IntervalTree<u32, (u32, i8)>;

#[verifier::external_type_specification]
#[verifier::external_body]
#[verifier::reject_recursive_types(N)]
#[verifier::reject_recursive_types(D)]
pub struct ExIntervalTree<N: Ord + Clone, D>(IntervalTree<N, D>);

/// One entry of the index: `(start, end, feature index, strand)`.
pub type TreeEntry = (u32, u32, u32, i8);

/// The entries that a tree holds, each as often as it was inserted.
pub uninterp spec fn tree_entries(t: OurTree) -> Multiset<TreeEntry>;

/// The distinct entries that a tree holds.
pub open spec fn entry_set(t: OurTree) -> Set<TreeEntry> {
    Set::new(|x: TreeEntry| tree_entries(t).contains(x))
}

/// Whether a stored interval `[s, e)` and a query `[qs, qe)` share a coordinate;
/// empty intervals share none.
pub open spec fn overlaps(s: int, e: int, qs: int, qe: int) -> bool {
    s < e && qs < qe && qe > s && qs < e
}

/// Relies on bio's `IntervalTree::new`: the new tree is empty.
#[verifier::external_body]
pub(crate) fn new_tree() -> (t: OurTree)
    ensures
        tree_entries(t) == Multiset::<TreeEntry>::empty(),
{
    IntervalTree::new()
}

/// Relies on bio's `IntervalTree::insert`: it adds one entry; it panics when
/// `end < start`.
#[verifier::external_body]
pub(crate) fn tree_insert(t: &mut OurTree, start: u32, end: u32, feature: u32, strand: i8)
    requires
        start <= end,
    ensures
        tree_entries(*final(t)) == tree_entries(*old(t)).insert((start, end, feature, strand)),
{
    t.insert(start..end, (feature, strand))
}

/// Relies on bio's `IntervalTree::find`: it yields exactly the entries whose
/// interval intersects the query (both non-empty); it panics when `end < start`.
#[verifier::external_body]
pub(crate) fn tree_find(t: &OurTree, start: u32, end: u32) -> (r: Vec<TreeEntry>)
    requires
        start <= end,
    ensures
        forall|i: int| 0 <= i < r.len() ==> {
            &&& #[trigger] tree_entries(*t).contains(r@[i])
            &&& overlaps(r@[i].0 as int, r@[i].1 as int, start as int, end as int)
        },
        forall|x: TreeEntry| #[trigger] tree_entries(*t).contains(x) && overlaps(x.0 as int, x.1 as int, start as int, end as int)
            ==> r@.contains(x),
{
    t.find(start..end).map(|e| (e.interval().start, e.interval().end, e.data().0, e.data().1)).collect()
}

/// One feature of the gene model: its identifier, its strand and its exons as
/// parallel lists of half-open `[start, end)` bounds.
pub struct FeatureDescription {
    pub id: String,
    pub strand: i8,
    pub exon_starts: Vec<u32>,
    pub exon_ends: Vec<u32>,
}

/// Why a gene model could not be turned into an index.
#[derive(Debug, Clone, Copy, PartialEq, Eq)]
pub enum BuildError {
    /// The feature at this position has exon start and end lists of different lengths.
    MismatchedBounds(usize),
    /// The feature at this position has an exon whose end lies before its start.
    ReversedExon(usize),
}

/// A feature whose exon lists pair up into well-formed intervals.
pub open spec fn feature_ok(f: FeatureDescription) -> bool {
    &&& f.exon_starts@.len() == f.exon_ends@.len()
    &&& forall|j: int| 0 <= j < f.exon_starts@.len() ==> f.exon_starts@[j] <= f.exon_ends@[j]
}

/// The entries for the first `j` exons of feature `f`, placed at position `i`.
pub open spec fn exon_entries(f: FeatureDescription, i: int, j: int) -> Multiset<TreeEntry>
    decreases j,
{
    if j <= 0 {
        Multiset::empty()
    } else {
        exon_entries(f, i, j - 1).insert((f.exon_starts@[j - 1], f.exon_ends@[j - 1], i as u32, f.strand))
    }
}

/// The entries for all exons of the features before position `i`.
pub open spec fn features_entries(fs: Seq<FeatureDescription>, i: int) -> Multiset<TreeEntry>
    decreases i,
{
    if i <= 0 {
        Multiset::empty()
    } else {
        features_entries(fs, i - 1).add(exon_entries(fs[i - 1], i - 1, fs[i - 1].exon_starts@.len() as int))
    }
}

/// The entries of the index of a whole gene model: one per exon, tagged with
/// the feature's position and strand.
pub open spec fn model_entries(fs: Seq<FeatureDescription>) -> Multiset<TreeEntry> {
    features_entries(fs, fs.len() as int)
}

/// Every entry of the tree names a feature below `feature_count`.
pub open spec fn tree_wf(t: OurTree, feature_count: nat) -> bool {
    forall|x: TreeEntry| #[trigger] tree_entries(t).contains(x) ==> (x.2 as nat) < feature_count
}

/// Builds the interval index of one reference sequence and the list of its
/// feature identifiers; feature `i` of the model gets index `i`.
pub fn build_tree(features: &Vec<FeatureDescription>) -> (r: Result<(OurTree, Vec<String>), BuildError>)
    requires
        features@.len() <= u32::MAX,
    ensures
        r is Ok <==> forall|i: int| 0 <= i < features@.len() ==> #[trigger] feature_ok(features@[i]),
        r matches Ok((t, ids)) ==> {
            &&& tree_entries(t) == model_entries(features@)
            &&& ids@.len() == features@.len()
            &&& forall|i: int| 0 <= i < ids@.len() ==> #[trigger] ids@[i]@ == features@[i].id@
            &&& tree_wf(t, ids@.len())
        },
        r matches Err(BuildError::MismatchedBounds(i)) ==> {
            &&& i < features@.len()
            &&& features@[i as int].exon_starts@.len() != features@[i as int].exon_ends@.len()
            &&& forall|k: int| 0 <= k < i ==> #[trigger] feature_ok(features@[k])
        },
        r matches Err(BuildError::ReversedExon(i)) ==> {
            &&& i < features@.len()
            &&& features@[i as int].exon_starts@.len() == features@[i as int].exon_ends@.len()
            &&& !feature_ok(features@[i as int])
            &&& forall|k: int| 0 <= k < i ==> #[trigger] feature_ok(features@[k])
        },
{
    let mut tree = new_tree();
    let mut ids: Vec<String> = Vec::new();
    let n = features.len();
    let mut i: usize = 0;
    while i < n
        invariant
            n == features@.len(),
            n <= u32::MAX,
            0 <= i <= n,
            forall|k: int| 0 <= k < i ==> #[trigger] feature_ok(features@[k]),
            tree_entries(tree) == features_entries(features@, i as int),
            forall|x: TreeEntry| #[trigger] tree_entries(tree).contains(x) ==> (x.2 as int) < i,
            ids@.len() == i,
            forall|k: int| 0 <= k < i ==> #[trigger] ids@[k]@ == features@[k].id@,
        decreases n - i,
    {
        let f = &features[i];
        if f.exon_starts.len() != f.exon_ends.len() {
            assert(!feature_ok(features@[i as int]));
            return Err(BuildError::MismatchedBounds(i));
        }
        let m = f.exon_starts.len();
        let mut j: usize = 0;
        proof {
            assert(features_entries(features@, i as int).add(exon_entries(*f, i as int, 0)) =~= features_entries(features@, i as int));
        }
        while j < m
            invariant
                n == features@.len(),
                n <= u32::MAX,
                0 <= i < n,
                *f == features@[i as int],
                forall|k: int| 0 <= k < i ==> #[trigger] feature_ok(features@[k]),
                m == f.exon_starts@.len(),
                m == f.exon_ends@.len(),
                0 <= j <= m,
                forall|b: int| 0 <= b < j ==> f.exon_starts@[b] <= f.exon_ends@[b],
                tree_entries(tree) == features_entries(features@, i as int).add(exon_entries(*f, i as int, j as int)),
                forall|x: TreeEntry| #[trigger] tree_entries(tree).contains(x) ==> (x.2 as int) <= i,
            decreases m - j,
        {
            let s = f.exon_starts[j];
            let e = f.exon_ends[j];
            if e < s {
                assert(f.exon_starts@[j as int] > f.exon_ends@[j as int]);
                assert(!feature_ok(features@[i as int]));
                return Err(BuildError::ReversedExon(i));
            }
            let ghost before = tree_entries(tree);
            tree_insert(&mut tree, s, e, i as u32, f.strand);
            proof {
                let x = (s, e, i as u32, f.strand);
                let a = features_entries(features@, i as int);
                assert(a.add(exon_entries(*f, i as int, j + 1)) =~= a.add(exon_entries(*f, i as int, j as int)).insert(x));
                assert forall|y: TreeEntry| #[trigger] tree_entries(tree).contains(y) implies (y.2 as int) <= i by {
                    if y != x {
                        assert(before.contains(y));
                    }
                };
            }
            j += 1;
        }
        proof {
            assert(feature_ok(features@[i as int]));
        }
        ids.push(f.id.clone());
        i += 1;
    }
    proof {
        assert forall|x: TreeEntry| #[trigger] tree_entries(tree).contains(x) implies (x.2 as nat) < ids@.len() by {};
    }
    Ok((tree, ids))
}

} // verus!
