//! Per-chunk count tables and their summation into one result.
use vstd::prelude::*;
use vstd::string::StringExecFns;

verus! {

/// A table of counts keyed by text: feature identifiers and the synthetic
/// `_total` and `_<reference name>` keys.
pub type CountTable = Vec<(String, u32)>;

/// No key occurs twice in the table.
pub open spec fn keys_unique(m: Seq<(String, u32)>) -> bool {
    forall|i: int, j: int| 0 <= i < j < m.len() ==> (#[trigger] m[i]).0@ != (#[trigger] m[j]).0@
}

/// The mapping that a table holds.
pub open spec fn table_view(m: Seq<(String, u32)>) -> Map<Seq<char>, u32> {
    Map::new(
        |k: Seq<char>| exists|i: int| 0 <= i < m.len() && (#[trigger] m[i]).0@ == k,
        |k: Seq<char>| m[choose|i: int| 0 <= i < m.len() && (#[trigger] m[i]).0@ == k].1,
    )
}

/// The count under a key, 0 when the key is absent.
pub open spec fn count_of(m: Map<Seq<char>, u32>, k: Seq<char>) -> nat {
    if m.contains_key(k) { m[k] as nat } else { 0 }
}

/// The key of the grand total.
pub open spec fn total_key() -> Seq<char> {
    seq!['_', 't', 'o', 't', 'a', 'l']
}

/// The key of the subtotal of one reference sequence.
pub open spec fn reference_key(chr: Seq<char>) -> Seq<char> {
    seq!['_'] + chr
}

/// The sum of a vector of counts.
pub open spec fn sum_counts(c: Seq<u32>) -> nat
    decreases c.len(),
{
    if c.len() == 0 { 0 } else { sum_counts(c.drop_last()) + c.last() as nat }
}

/// The entry at a position of a table with unique keys is what the mapping holds.
pub proof fn lemma_view_at(m: Seq<(String, u32)>, i: int)
    requires
        keys_unique(m),
        0 <= i < m.len(),
    ensures
        table_view(m).contains_key(m[i].0@),
        table_view(m)[m[i].0@] == m[i].1,
{
    let k = m[i].0@;
    assert(exists|j: int| 0 <= j < m.len() && (#[trigger] m[j]).0@ == k);
    let j = choose|j: int| 0 <= j < m.len() && (#[trigger] m[j]).0@ == k;
    if j != i {
        if j < i {
            assert(m[j].0@ != m[i].0@);
        } else {
            assert(m[i].0@ != m[j].0@);
        }
    }
}

fn find_key(m: &CountTable, k: &String) -> (r: Option<usize>)
    ensures
        r matches Some(i) ==> i < m@.len() && m@[i as int].0@ == k@,
        r is None ==> forall|i: int| 0 <= i < m@.len() ==> (#[trigger] m@[i]).0@ != k@,
{
    let mut i: usize = 0;
    while i < m.len()
        invariant
            0 <= i <= m@.len(),
            forall|j: int| 0 <= j < i ==> (#[trigger] m@[j]).0@ != k@,
        decreases m@.len() - i,
    {
        if m[i].0 == *k {
            return Some(i);
        }
        i += 1;
    }
    None
}

/// Sets the count under `k` to `v`, replacing any count that it held.
pub fn set_count(m: &mut CountTable, k: &String, v: u32)
    requires
        keys_unique(old(m)@),
    ensures
        keys_unique(final(m)@),
        table_view(final(m)@) == table_view(old(m)@).insert(k@, v),
{
    let ghost before = m@;
    match find_key(m, k) {
        Some(i) => {
            proof {
                lemma_view_at(before, i as int);
            }
            let key = m[i].0.clone();
            m.set(i, (key, v));
            proof {
                let after = m@;
                assert(keys_unique(after)) by {
                    assert forall|a: int, b: int| 0 <= a < b < after.len() implies (#[trigger] after[a]).0@ != (#[trigger] after[b]).0@ by {
                        assert(before[a].0@ != before[b].0@);
                    };
                };
                let nv = v;
                assert forall|q: Seq<char>| table_view(after).contains_key(q) <==> table_view(before).insert(k@, nv).contains_key(q) by {
                    if table_view(after).contains_key(q) {
                        let j = choose|j: int| 0 <= j < after.len() && (#[trigger] after[j]).0@ == q;
                        if j != i {
                            assert(before[j].0@ == q);
                        }
                    }
                    if table_view(before).contains_key(q) {
                        let j = choose|j: int| 0 <= j < before.len() && (#[trigger] before[j]).0@ == q;
                        assert(after[j].0@ == q);
                    }
                    if q == k@ {
                        assert(after[i as int].0@ == q);
                    }
                };
                assert forall|q: Seq<char>| #[trigger] table_view(after).contains_key(q) implies table_view(after)[q] == table_view(before).insert(k@, nv)[q] by {
                    let j = choose|j: int| 0 <= j < after.len() && (#[trigger] after[j]).0@ == q;
                    lemma_view_at(after, j);
                    if j != i {
                        assert(before[j] == after[j]);
                        lemma_view_at(before, j);
                    }
                };
                assert(table_view(after) =~= table_view(before).insert(k@, nv));
            }
        },
        None => {
            m.push((k.clone(), v));
            proof {
                let after = m@;
                let n = before.len() as int;
                assert(keys_unique(after)) by {
                    assert forall|a: int, b: int| 0 <= a < b < after.len() implies (#[trigger] after[a]).0@ != (#[trigger] after[b]).0@ by {
                        if b < n {
                            assert(before[a].0@ != before[b].0@);
                        } else {
                            assert(before[a].0@ != k@);
                        }
                    };
                };
                assert(!table_view(before).contains_key(k@));
                assert forall|q: Seq<char>| table_view(after).contains_key(q) <==> table_view(before).insert(k@, v).contains_key(q) by {
                    if table_view(after).contains_key(q) {
                        let j = choose|j: int| 0 <= j < after.len() && (#[trigger] after[j]).0@ == q;
                        if j != n {
                            assert(before[j].0@ == q);
                        }
                    }
                    if table_view(before).contains_key(q) {
                        let j = choose|j: int| 0 <= j < before.len() && (#[trigger] before[j]).0@ == q;
                        assert(after[j].0@ == q);
                    }
                    if q == k@ {
                        assert(after[n].0@ == q);
                    }
                };
                assert forall|q: Seq<char>| #[trigger] table_view(after).contains_key(q) implies table_view(after)[q] == table_view(before).insert(k@, v)[q] by {
                    let j = choose|j: int| 0 <= j < after.len() && (#[trigger] after[j]).0@ == q;
                    lemma_view_at(after, j);
                    if j != n {
                        assert(before[j] == after[j]);
                        lemma_view_at(before, j);
                    }
                };
                assert(table_view(after) =~= table_view(before).insert(k@, v));
            }
        },
    }
}

/// Adds `v` to the count under `k`, creating the key with count `v` when absent.
pub fn add_count(m: &mut CountTable, k: &String, v: u32)
    requires
        keys_unique(old(m)@),
        count_of(table_view(old(m)@), k@) + v <= u32::MAX,
    ensures
        keys_unique(final(m)@),
        table_view(final(m)@) == table_view(old(m)@).insert(k@, (count_of(table_view(old(m)@), k@) + v) as u32),
{
    let c = match find_key(m, k) {
        Some(i) => {
            proof {
                lemma_view_at(m@, i as int);
            }
            m[i].1
        },
        None => 0,
    };
    set_count(m, k, c + v);
}

/// Appending an entry with a new key adds that key to the mapping.
pub proof fn lemma_view_push(m: Seq<(String, u32)>, e: (String, u32))
    requires
        keys_unique(m.push(e)),
    ensures
        keys_unique(m),
        !table_view(m).contains_key(e.0@),
        table_view(m.push(e)) == table_view(m).insert(e.0@, e.1),
{
    let after = m.push(e);
    let n = m.len() as int;
    assert forall|a: int, b: int| 0 <= a < b < m.len() implies (#[trigger] m[a]).0@ != (#[trigger] m[b]).0@ by {
        assert(after[a] == m[a] && after[b] == m[b]);
    };
    if table_view(m).contains_key(e.0@) {
        let j = choose|j: int| 0 <= j < m.len() && (#[trigger] m[j]).0@ == e.0@;
        assert(after[j].0@ != after[n].0@);
    }
    assert forall|q: Seq<char>| table_view(after).contains_key(q) <==> table_view(m).insert(e.0@, e.1).contains_key(q) by {
        if table_view(after).contains_key(q) {
            let j = choose|j: int| 0 <= j < after.len() && (#[trigger] after[j]).0@ == q;
            if j != n {
                assert(m[j].0@ == q);
            }
        }
        if table_view(m).contains_key(q) {
            let j = choose|j: int| 0 <= j < m.len() && (#[trigger] m[j]).0@ == q;
            assert(after[j].0@ == q);
        }
        if q == e.0@ {
            assert(after[n].0@ == q);
        }
    };
    assert forall|q: Seq<char>| #[trigger] table_view(after).contains_key(q) implies table_view(after)[q] == table_view(m).insert(e.0@, e.1)[q] by {
        let j = choose|j: int| 0 <= j < after.len() && (#[trigger] after[j]).0@ == q;
        lemma_view_at(after, j);
        if j != n {
            assert(m[j] == after[j]);
            lemma_view_at(m, j);
        }
    };
    assert(table_view(after) =~= table_view(m).insert(e.0@, e.1));
}

/// A prefix of a table with unique keys holds a part of its mapping.
proof fn lemma_prefix_count(m: Seq<(String, u32)>, j: int, k: Seq<char>)
    requires
        keys_unique(m),
        0 <= j <= m.len(),
    ensures
        keys_unique(m.take(j)),
        count_of(table_view(m.take(j)), k) <= count_of(table_view(m), k),
{
    let p = m.take(j);
    assert forall|a: int, b: int| 0 <= a < b < p.len() implies (#[trigger] p[a]).0@ != (#[trigger] p[b]).0@ by {
        assert(p[a] == m[a] && p[b] == m[b]);
    };
    if table_view(p).contains_key(k) {
        let i = choose|i: int| 0 <= i < p.len() && (#[trigger] p[i]).0@ == k;
        lemma_view_at(p, i);
        assert(p[i] == m[i]);
        lemma_view_at(m, i);
    }
}

/// Merges two count tables by summing the counts of equal keys.
pub fn add_hashmaps(a: CountTable, b: CountTable) -> (r: CountTable)
    requires
        keys_unique(a@),
        keys_unique(b@),
        forall|k: Seq<char>| count_of(table_view(a@), k) + count_of(table_view(b@), k) <= u32::MAX,
    ensures
        keys_unique(r@),
        forall|k: Seq<char>| #[trigger] table_view(r@).contains_key(k) <==> (table_view(a@).contains_key(k) || table_view(b@).contains_key(k)),
        forall|k: Seq<char>| #[trigger] count_of(table_view(r@), k) == count_of(table_view(a@), k) + count_of(table_view(b@), k),
{
    let ghost a0 = a@;
    let mut r = a;
    let mut j: usize = 0;
    while j < b.len()
        invariant
            keys_unique(a0),
            keys_unique(b@),
            forall|k: Seq<char>| count_of(table_view(a0), k) + count_of(table_view(b@), k) <= u32::MAX,
            0 <= j <= b@.len(),
            keys_unique(r@),
            forall|k: Seq<char>| #[trigger] table_view(r@).contains_key(k) <==> (table_view(a0).contains_key(k) || table_view(b@.take(j as int)).contains_key(k)),
            forall|k: Seq<char>| #[trigger] count_of(table_view(r@), k) == count_of(table_view(a0), k) + count_of(table_view(b@.take(j as int)), k),
        decreases b@.len() - j,
    {
        let ghost before = r@;
        let ghost key = b@[j as int].0@;
        proof {
            assert(b@.take(j + 1) == b@.take(j as int).push(b@[j as int]));
            lemma_prefix_count(b@, j + 1, key);
            lemma_view_push(b@.take(j as int), b@[j as int]);
            assert(count_of(table_view(b@.take(j as int)), key) == 0);
            assert(count_of(table_view(b@.take(j + 1)), key) == b@[j as int].1);
            assert(count_of(table_view(r@), key) == count_of(table_view(a0), key));
        }
        add_count(&mut r, &b[j].0, b[j].1);
        proof {
            let bj = b@.take(j as int);
            let bj1 = b@.take(j + 1);
            assert forall|k: Seq<char>| #[trigger] table_view(r@).contains_key(k) <==> (table_view(a0).contains_key(k) || table_view(bj1).contains_key(k)) by {
                assert(table_view(before).contains_key(k) <==> (table_view(a0).contains_key(k) || table_view(bj).contains_key(k)));
            };
            assert forall|k: Seq<char>| #[trigger] count_of(table_view(r@), k) == count_of(table_view(a0), k) + count_of(table_view(bj1), k) by {
                assert(count_of(table_view(before), k) == count_of(table_view(a0), k) + count_of(table_view(bj), k));
            };
        }
        j += 1;
    }
    assert(b@.take(b@.len() as int) =~= b@);
    r
}

/// The mapping from feature identifier to count after the first `n` features
/// were entered, a later identifier replacing the count of an equal earlier one.
pub open spec fn gene_view(ids: Seq<String>, counts: Seq<u32>, n: int) -> Map<Seq<char>, u32>
    decreases n,
{
    if n <= 0 {
        Map::empty()
    } else {
        gene_view(ids, counts, n - 1).insert(ids[n - 1]@, counts[n - 1])
    }
}

/// The table of one chunk: each feature's count, and the chunk's total under
/// both the `_total` key and the key of its reference sequence.
pub open spec fn chunk_view(ids: Seq<String>, counts: Seq<u32>, chr: Seq<char>) -> Map<Seq<char>, u32> {
    gene_view(ids, counts, ids.len() as int).insert(total_key(), sum_counts(counts) as u32).insert(
        reference_key(chr),
        sum_counts(counts) as u32,
    )
}

/// A prefix never sums to more than the whole.
pub proof fn lemma_sum_prefix(c: Seq<u32>, i: int)
    requires
        0 <= i <= c.len(),
    ensures
        sum_counts(c.take(i)) <= sum_counts(c),
    decreases c.len(),
{
    if i < c.len() {
        assert(c.drop_last().take(i) =~= c.take(i));
        lemma_sum_prefix(c.drop_last(), i);
    } else {
        assert(c.take(i) =~= c);
    }
}

/// Turns the count vector of one chunk into a table keyed by feature
/// identifier, with the chunk's total under `_total` and under `_<chr>`.
pub fn chunk_result(counts: &Vec<u32>, gene_ids: &Vec<String>, chr: &String) -> (r: CountTable)
    requires
        counts@.len() == gene_ids@.len(),
        sum_counts(counts@) <= u32::MAX,
    ensures
        keys_unique(r@),
        table_view(r@) == chunk_view(gene_ids@, counts@, chr@),
{
    let mut r: CountTable = Vec::new();
    let mut total: u32 = 0;
    let mut i: usize = 0;
    proof {
        assert(table_view(r@) =~= Map::<Seq<char>, u32>::empty());
        assert(counts@.take(0) =~= Seq::<u32>::empty());
    }
    while i < counts.len()
        invariant
            counts@.len() == gene_ids@.len(),
            sum_counts(counts@) <= u32::MAX,
            0 <= i <= counts@.len(),
            keys_unique(r@),
            table_view(r@) == gene_view(gene_ids@, counts@, i as int),
            total as nat == sum_counts(counts@.take(i as int)),
        decreases counts@.len() - i,
    {
        set_count(&mut r, &gene_ids[i], counts[i]);
        proof {
            assert(counts@.take(i + 1).drop_last() =~= counts@.take(i as int));
            lemma_sum_prefix(counts@, i + 1);
        }
        total = total + counts[i];
        i += 1;
    }
    proof {
        assert(counts@.take(counts@.len() as int) =~= counts@);
    }
    let total_name = String::from_str("_total");
    proof {
        reveal_strlit("_total");
        assert(total_name@ =~= total_key());
    }
    set_count(&mut r, &total_name, total);
    let prefix = String::from_str("_");
    let chr_name = prefix.concat(chr.as_str());
    proof {
        reveal_strlit("_");
        assert(chr_name@ =~= reference_key(chr@));
    }
    set_count(&mut r, &chr_name, total);
    r
}

/// The table of a chunk whose scan may have failed: a failed scan contributes
/// no feature counts and a total of 0 under `_total` and `_<chr>`.
pub fn scan_result(counts: &Option<Vec<u32>>, gene_ids: &Vec<String>, chr: &String) -> (r: CountTable)
    requires
        counts matches Some(c) ==> c@.len() == gene_ids@.len() && sum_counts(c@) <= u32::MAX,
    ensures
        keys_unique(r@),
        counts matches Some(c) ==> table_view(r@) == chunk_view(gene_ids@, c@, chr@),
        counts is None ==> table_view(r@) == chunk_view(Seq::empty(), Seq::empty(), chr@),
{
    match counts {
        Some(c) => chunk_result(c, gene_ids, chr),
        None => {
            let no_ids: Vec<String> = Vec::new();
            let no_counts: Vec<u32> = Vec::new();
            proof {
                assert(no_ids@ =~= Seq::<String>::empty());
                assert(no_counts@ =~= Seq::<u32>::empty());
            }
            chunk_result(&no_counts, &no_ids, chr)
        },
    }
}

/// The sum of the counts under key `k` over a sequence of tables.
pub open spec fn sum_over(tables: Seq<Seq<(String, u32)>>, k: Seq<char>) -> nat
    decreases tables.len(),
{
    if tables.len() == 0 {
        0
    } else {
        sum_over(tables.drop_last(), k) + count_of(table_view(tables.last()), k)
    }
}

/// The view of each table in a sequence.
pub open spec fn views(tables: Seq<CountTable>) -> Seq<Seq<(String, u32)>> {
    tables.map_values(|t: CountTable| t@)
}

proof fn lemma_sum_over_prefix(tables: Seq<Seq<(String, u32)>>, i: int, k: Seq<char>)
    requires
        0 <= i <= tables.len(),
    ensures
        sum_over(tables.take(i), k) <= sum_over(tables, k),
    decreases tables.len(),
{
    if i < tables.len() {
        assert(tables.drop_last().take(i) =~= tables.take(i));
        lemma_sum_over_prefix(tables.drop_last(), i, k);
    } else {
        assert(tables.take(i) =~= tables);
    }
}

/// Whether key `k` occurs in one of the first `n` tables.
pub open spec fn present_in(tables: Seq<Seq<(String, u32)>>, n: int, k: Seq<char>) -> bool {
    exists|j: int| 0 <= j < n && #[trigger] table_view(tables[j]).contains_key(k)
}

/// Reduces the tables of all chunks into one by summation, starting from the
/// empty table; the count under each key is the sum of its counts in the tables.
pub fn merge_results(tables: Vec<CountTable>) -> (r: CountTable)
    requires
        forall|i: int| 0 <= i < tables@.len() ==> keys_unique(#[trigger] tables@[i]@),
        forall|k: Seq<char>| sum_over(views(tables@), k) <= u32::MAX,
    ensures
        keys_unique(r@),
        forall|k: Seq<char>| #[trigger] count_of(table_view(r@), k) == sum_over(views(tables@), k),
        forall|k: Seq<char>| #[trigger] table_view(r@).contains_key(k) <==> present_in(views(tables@), tables@.len() as int, k),
{
    let ghost vs = views(tables@);
    let mut r: CountTable = Vec::new();
    let mut i: usize = 0;
    let n = tables.len();
    let mut rest = tables;
    let mut pending: Vec<CountTable> = Vec::new();
    // Take the tables from the back so that each one moves without a copy.
    while rest.len() > 0
        invariant
            vs.len() == n,
            rest@.len() + pending@.len() == n,
            forall|j: int| 0 <= j < rest@.len() ==> #[trigger] rest@[j]@ == vs[j],
            forall|j: int| 0 <= j < pending@.len() ==> #[trigger] pending@[j]@ == vs[n - 1 - j],
        decreases rest@.len(),
    {
        let t = rest.pop().unwrap();
        pending.push(t);
    }
    proof {
        assert(vs.take(0) =~= Seq::<Seq<(String, u32)>>::empty());
        assert(table_view(r@) =~= Map::<Seq<char>, u32>::empty());
    }
    while pending.len() > 0
        invariant
            vs == views(tables@),
            vs.len() == n,
            forall|j: int| 0 <= j < n ==> keys_unique(#[trigger] vs[j]),
            forall|k: Seq<char>| sum_over(vs, k) <= u32::MAX,
            i + pending@.len() == n,
            forall|j: int| 0 <= j < pending@.len() ==> #[trigger] pending@[j]@ == vs[n - 1 - j],
            keys_unique(r@),
            forall|k: Seq<char>| #[trigger] count_of(table_view(r@), k) == sum_over(vs.take(i as int), k),
            forall|k: Seq<char>| #[trigger] table_view(r@).contains_key(k) <==> present_in(vs, i as int, k),
        decreases pending@.len(),
    {
        let t = pending.pop().unwrap();
        proof {
            assert(t@ == vs[i as int]);
            assert(vs.take(i + 1).drop_last() =~= vs.take(i as int));
            assert forall|k: Seq<char>| count_of(table_view(r@), k) + count_of(table_view(t@), k) <= u32::MAX by {
                lemma_sum_over_prefix(vs, i + 1, k);
            };
        }
        let ghost rv = r@;
        r = add_hashmaps(r, t);
        proof {
            assert forall|k: Seq<char>| #[trigger] count_of(table_view(r@), k) == sum_over(vs.take(i + 1), k) by {
                assert(count_of(table_view(rv), k) == sum_over(vs.take(i as int), k));
            };
            assert forall|k: Seq<char>| #[trigger] table_view(r@).contains_key(k) <==> present_in(vs, i + 1, k) by {
                assert(table_view(rv).contains_key(k) <==> present_in(vs, i as int, k));
                if present_in(vs, i + 1, k) && !table_view(t@).contains_key(k) {
                    let j = choose|j: int| 0 <= j < i + 1 && #[trigger] table_view(vs[j]).contains_key(k);
                    assert(present_in(vs, i as int, k));
                }
                if table_view(t@).contains_key(k) {
                    assert(table_view(vs[i as int]).contains_key(k));
                }
            };
        }
        i += 1;
    }
    proof {
        assert(vs.take(n as int) =~= vs);
    }
    r
}

/// No two feature identifiers are equal.
pub open spec fn ids_distinct(ids: Seq<String>) -> bool {
    forall|i: int, j: int| 0 <= i < j < ids.len() ==> (#[trigger] ids[i])@ != (#[trigger] ids[j])@
}

/// The sum of the counts that a mapping holds under the first `n` identifiers.
pub open spec fn feature_sum(m: Map<Seq<char>, u32>, ids: Seq<String>, n: int) -> nat
    decreases n,
{
    if n <= 0 {
        0
    } else {
        feature_sum(m, ids, n - 1) + count_of(m, ids[n - 1]@)
    }
}

proof fn lemma_gene_view_at(ids: Seq<String>, counts: Seq<u32>, n: int, i: int)
    requires
        ids_distinct(ids),
        0 <= i < n <= ids.len(),
        ids.len() == counts.len(),
    ensures
        gene_view(ids, counts, n).contains_key(ids[i]@),
        gene_view(ids, counts, n)[ids[i]@] == counts[i],
    decreases n,
{
    if i < n - 1 {
        lemma_gene_view_at(ids, counts, n - 1, i);
        assert(ids[i]@ != ids[n - 1]@);
    }
}

proof fn lemma_feature_sum(ids: Seq<String>, counts: Seq<u32>, chr: Seq<char>, n: int)
    requires
        ids_distinct(ids),
        ids.len() == counts.len(),
        0 <= n <= ids.len(),
        forall|i: int| 0 <= i < ids.len() ==> (#[trigger] ids[i])@ != total_key() && ids[i]@ != reference_key(chr),
    ensures
        feature_sum(chunk_view(ids, counts, chr), ids, n) == sum_counts(counts.take(n)),
    decreases n,
{
    if n > 0 {
        lemma_feature_sum(ids, counts, chr, n - 1);
        lemma_gene_view_at(ids, counts, ids.len() as int, n - 1);
        assert(ids[n - 1]@ != total_key());
        assert(counts.take(n).drop_last() =~= counts.take(n - 1));
    } else {
        assert(counts.take(0) =~= Seq::<u32>::empty());
    }
}

/// In the table of one chunk, the feature counts sum to the chunk's total, and
/// the `_total` key and the reference sequence's key both hold that total,
/// when feature identifiers are distinct and none is a synthetic key.
pub proof fn lemma_chunk_totals(ids: Seq<String>, counts: Seq<u32>, chr: Seq<char>)
    requires
        ids.len() == counts.len(),
        sum_counts(counts) <= u32::MAX,
        ids_distinct(ids),
        forall|i: int| 0 <= i < ids.len() ==> (#[trigger] ids[i])@ != total_key() && ids[i]@ != reference_key(chr),
    ensures
        feature_sum(chunk_view(ids, counts, chr), ids, ids.len() as int) == sum_counts(counts),
        count_of(chunk_view(ids, counts, chr), reference_key(chr)) == sum_counts(counts),
        count_of(chunk_view(ids, counts, chr), total_key()) == sum_counts(counts),
{
    lemma_feature_sum(ids, counts, chr, ids.len() as int);
    assert(counts.take(counts.len() as int) =~= counts);
}

/// The sum of each table's count under the key of its own reference sequence.
pub open spec fn subtotal_sum(tables: Seq<Seq<(String, u32)>>, chrs: Seq<Seq<char>>) -> nat
    decreases tables.len(),
{
    if tables.len() == 0 || chrs.len() == 0 {
        0
    } else {
        subtotal_sum(tables.drop_last(), chrs.drop_last()) + count_of(table_view(tables.last()), reference_key(chrs.last()))
    }
}

/// When each chunk's table holds the same count under `_total` as under its
/// reference's key, the summed `_total` is the sum of the chunks' subtotals.
pub proof fn lemma_total_of_subtotals(tables: Seq<Seq<(String, u32)>>, chrs: Seq<Seq<char>>)
    requires
        tables.len() == chrs.len(),
        forall|i: int| 0 <= i < tables.len() ==> count_of(table_view(#[trigger] tables[i]), total_key())
            == count_of(table_view(tables[i]), reference_key(chrs[i])),
    ensures
        sum_over(tables, total_key()) == subtotal_sum(tables, chrs),
    decreases tables.len(),
{
    if tables.len() > 0 {
        let n = tables.len() - 1;
        assert forall|i: int| 0 <= i < tables.drop_last().len() implies count_of(table_view(#[trigger] tables.drop_last()[i]), total_key())
            == count_of(table_view(tables.drop_last()[i]), reference_key(chrs.drop_last()[i])) by {
            assert(tables.drop_last()[i] == tables[i]);
        };
        lemma_total_of_subtotals(tables.drop_last(), chrs.drop_last());
        assert(tables[n] == tables.last());
    }
}

proof fn lemma_gene_view_keys(ids: Seq<String>, counts: Seq<u32>, n: int, k: Seq<char>)
    requires
        0 <= n <= ids.len(),
        forall|i: int| 0 <= i < n ==> (#[trigger] ids[i])@ != k,
    ensures
        !gene_view(ids, counts, n).contains_key(k),
    decreases n,
{
    if n > 0 {
        lemma_gene_view_keys(ids, counts, n - 1, k);
    }
}

/// The sum over the first `n` identifiers of their counts summed over all tables.
pub open spec fn ids_sum_over(tables: Seq<Seq<(String, u32)>>, ids: Seq<String>, n: int) -> nat
    decreases n,
{
    if n <= 0 {
        0
    } else {
        ids_sum_over(tables, ids, n - 1) + sum_over(tables, ids[n - 1]@)
    }
}

proof fn lemma_ids_sum_split(tables: Seq<Seq<(String, u32)>>, ids: Seq<String>, n: int)
    requires
        tables.len() > 0,
        0 <= n <= ids.len(),
    ensures
        ids_sum_over(tables, ids, n) == ids_sum_over(tables.drop_last(), ids, n) + feature_sum(table_view(tables.last()), ids, n),
    decreases n,
{
    if n > 0 {
        lemma_ids_sum_split(tables, ids, n - 1);
    }
}

/// The chunk tables of a run: table `i` is the table of a chunk of reference
/// `chrs[i]` whose features are `ids_s[i]` with counts `counts_s[i]`.
pub open spec fn run_tables(
    tables: Seq<Seq<(String, u32)>>,
    ids_s: Seq<Seq<String>>,
    counts_s: Seq<Seq<u32>>,
    chrs: Seq<Seq<char>>,
) -> bool {
    &&& tables.len() == ids_s.len() && tables.len() == counts_s.len() && tables.len() == chrs.len()
    &&& forall|i: int| 0 <= i < tables.len() ==> {
        &&& (#[trigger] ids_s[i]).len() == counts_s[i].len()
        &&& sum_counts(counts_s[i]) <= u32::MAX
        &&& table_view(tables[i]) == chunk_view(ids_s[i], counts_s[i], chrs[i])
    }
}

/// Over a whole run, the merged count under a reference sequence's key equals
/// the sum of the merged counts of that reference's features, when every chunk
/// of the reference lists the same distinct features, and no feature
/// identifier of the run equals another reference's feature, `_total`, or the
/// key of a reference.
pub proof fn lemma_reference_subtotal(
    tables: Seq<Seq<(String, u32)>>,
    ids_s: Seq<Seq<String>>,
    counts_s: Seq<Seq<u32>>,
    chrs: Seq<Seq<char>>,
    c: Seq<char>,
    ids: Seq<String>,
)
    requires
        run_tables(tables, ids_s, counts_s, chrs),
        ids_distinct(ids),
        reference_key(c) != total_key(),
        forall|i: int| 0 <= i < tables.len() && chrs[i] == c ==> #[trigger] ids_s[i] == ids,
        forall|i: int, j: int| 0 <= i < tables.len() && chrs[i] != c && 0 <= j < ids_s[i].len() ==>
            forall|l: int| 0 <= l < ids.len() ==> (#[trigger] ids_s[i][j])@ != (#[trigger] ids[l])@,
        forall|i: int, j: int, l: int| 0 <= i < tables.len() && 0 <= j < ids_s[i].len() && 0 <= l < tables.len() ==>
            (#[trigger] ids_s[i][j])@ != total_key() && ids_s[i][j]@ != reference_key(#[trigger] chrs[l]),
        forall|j: int| 0 <= j < ids.len() ==> (#[trigger] ids[j])@ != reference_key(c) && ids[j]@ != total_key(),
        forall|i: int, j: int| 0 <= i < tables.len() && 0 <= j < ids_s[i].len() ==> (#[trigger] ids_s[i][j])@ != reference_key(c),
        forall|j: int, l: int| 0 <= j < ids.len() && 0 <= l < tables.len() ==> (#[trigger] ids[j])@ != reference_key(#[trigger] chrs[l]),
    ensures
        ids_sum_over(tables, ids, ids.len() as int) == sum_over(tables, reference_key(c)),
    decreases tables.len(),
{
    if tables.len() == 0 {
        assert(ids_sum_over(tables, ids, ids.len() as int) == 0) by {
            lemma_ids_zero(tables, ids, ids.len() as int);
        };
    } else {
        let n = tables.len() - 1;
        let t = tables.drop_last();
        assert(run_tables(t, ids_s.drop_last(), counts_s.drop_last(), chrs.drop_last())) by {
            assert forall|i: int| 0 <= i < t.len() implies {
                &&& (#[trigger] ids_s.drop_last()[i]).len() == counts_s.drop_last()[i].len()
                &&& sum_counts(counts_s.drop_last()[i]) <= u32::MAX
                &&& table_view(t[i]) == chunk_view(ids_s.drop_last()[i], counts_s.drop_last()[i], chrs.drop_last()[i])
            } by {
                assert(ids_s[i] == ids_s.drop_last()[i]);
            };
        };
        assert forall|i: int| 0 <= i < t.len() && chrs.drop_last()[i] == c implies #[trigger] ids_s.drop_last()[i] == ids by {
            assert(ids_s[i] == ids_s.drop_last()[i]);
        };
        assert forall|i: int, j: int| 0 <= i < t.len() && chrs.drop_last()[i] != c && 0 <= j < ids_s.drop_last()[i].len() implies
            forall|l: int| 0 <= l < ids.len() ==> (#[trigger] ids_s.drop_last()[i][j])@ != (#[trigger] ids[l])@ by {
            assert(ids_s[i] == ids_s.drop_last()[i]);
            assert(chrs[i] == chrs.drop_last()[i]);
        };
        assert forall|i: int, j: int, l: int| 0 <= i < t.len() && 0 <= j < ids_s.drop_last()[i].len() && 0 <= l < t.len() implies
            (#[trigger] ids_s.drop_last()[i][j])@ != total_key() && ids_s.drop_last()[i][j]@ != reference_key(#[trigger] chrs.drop_last()[l]) by {
            assert(ids_s[i] == ids_s.drop_last()[i]);
            assert(chrs[l] == chrs.drop_last()[l]);
        };
        assert forall|i: int, j: int| 0 <= i < t.len() && 0 <= j < ids_s.drop_last()[i].len() implies (#[trigger] ids_s.drop_last()[i][j])@ != reference_key(c) by {
            assert(ids_s[i] == ids_s.drop_last()[i]);
        };
        assert forall|j: int, l: int| 0 <= j < ids.len() && 0 <= l < t.len() implies (#[trigger] ids[j])@ != reference_key(#[trigger] chrs.drop_last()[l]) by {
            assert(chrs[l] == chrs.drop_last()[l]);
        };
        lemma_reference_subtotal(t, ids_s.drop_last(), counts_s.drop_last(), chrs.drop_last(), c, ids);
        lemma_ids_sum_split(tables, ids, ids.len() as int);
        let cid = ids_s[n];
        let cc = counts_s[n];
        let cchr = chrs[n];
        assert(tables.last() == tables[n]);
        if cchr == c {
            assert(cid == ids);
            assert forall|i: int| 0 <= i < cid.len() implies (#[trigger] cid[i])@ != total_key() && cid[i]@ != reference_key(cchr) by {};
            lemma_chunk_totals(cid, cc, cchr);
        } else {
            assert forall|i: int| 0 <= i < cid.len() implies (#[trigger] cid[i])@ != reference_key(c) by {
                assert(ids_s[n][i]@ != reference_key(c));
            };
            assert forall|l: int| 0 <= l < ids.len() implies (#[trigger] ids[l])@ != total_key() && ids[l]@ != reference_key(cchr) by {
                assert(ids[l]@ != reference_key(chrs[n]));
            };
            lemma_feature_sum_zero(cid, cc, cchr, ids, ids.len() as int);
            lemma_gene_view_keys(cid, cc, cid.len() as int, reference_key(c));
            assert(reference_key(c) != reference_key(cchr)) by {
                assert(reference_key(c).subrange(1, reference_key(c).len() as int) =~= c);
                assert(reference_key(cchr).subrange(1, reference_key(cchr).len() as int) =~= cchr);
            };
        }
    }
}

proof fn lemma_ids_zero(tables: Seq<Seq<(String, u32)>>, ids: Seq<String>, n: int)
    requires
        tables.len() == 0,
    ensures
        ids_sum_over(tables, ids, n) == 0,
    decreases n,
{
    if n > 0 {
        lemma_ids_zero(tables, ids, n - 1);
    }
}

proof fn lemma_feature_sum_zero(cid: Seq<String>, cc: Seq<u32>, cchr: Seq<char>, ids: Seq<String>, n: int)
    requires
        0 <= n <= ids.len(),
        cid.len() == cc.len(),
        forall|j: int, l: int| 0 <= j < cid.len() && 0 <= l < ids.len() ==> (#[trigger] cid[j])@ != (#[trigger] ids[l])@,
        forall|l: int| 0 <= l < ids.len() ==> (#[trigger] ids[l])@ != total_key() && ids[l]@ != reference_key(cchr),
    ensures
        feature_sum(chunk_view(cid, cc, cchr), ids, n) == 0,
    decreases n,
{
    if n > 0 {
        lemma_feature_sum_zero(cid, cc, cchr, ids, n - 1);
        let k = ids[n - 1]@;
        assert forall|i: int| 0 <= i < cid.len() implies (#[trigger] cid[i])@ != k by {
            assert(cid[i]@ != ids[n - 1]@);
        };
        lemma_gene_view_keys(cid, cc, cid.len() as int, k);
    }
}

/// The sum over the first `n` references of the counts summed over all tables
/// under each reference's key.
pub open spec fn refs_sum(tables: Seq<Seq<(String, u32)>>, refs: Seq<Seq<char>>, n: int) -> nat
    decreases n,
{
    if n <= 0 {
        0
    } else {
        refs_sum(tables, refs, n - 1) + sum_over(tables, reference_key(refs[n - 1]))
    }
}

/// The sum of the counts that one mapping holds under the keys of the first `n` references.
pub open spec fn ref_counts(m: Map<Seq<char>, u32>, refs: Seq<Seq<char>>, n: int) -> nat
    decreases n,
{
    if n <= 0 {
        0
    } else {
        ref_counts(m, refs, n - 1) + count_of(m, reference_key(refs[n - 1]))
    }
}

proof fn lemma_refs_sum_split(tables: Seq<Seq<(String, u32)>>, refs: Seq<Seq<char>>, n: int)
    requires
        tables.len() > 0,
        0 <= n <= refs.len(),
    ensures
        refs_sum(tables, refs, n) == refs_sum(tables.drop_last(), refs, n) + ref_counts(table_view(tables.last()), refs, n),
    decreases n,
{
    if n > 0 {
        lemma_refs_sum_split(tables, refs, n - 1);
    }
}

proof fn lemma_refs_sum_empty(tables: Seq<Seq<(String, u32)>>, refs: Seq<Seq<char>>, n: int)
    requires
        tables.len() == 0,
    ensures
        refs_sum(tables, refs, n) == 0,
    decreases n,
{
    if n > 0 {
        lemma_refs_sum_empty(tables, refs, n - 1);
    }
}

proof fn lemma_reference_key_injective(a: Seq<char>, b: Seq<char>)
    requires
        a != b,
    ensures
        reference_key(a) != reference_key(b),
{
    assert(reference_key(a).subrange(1, reference_key(a).len() as int) =~= a);
    assert(reference_key(b).subrange(1, reference_key(b).len() as int) =~= b);
}

proof fn lemma_ref_counts_chunk(ids: Seq<String>, counts: Seq<u32>, chr: Seq<char>, refs: Seq<Seq<char>>, n: int)
    requires
        0 <= n <= refs.len(),
        ids.len() == counts.len(),
        forall|a: int, b: int| 0 <= a < b < refs.len() ==> refs[a] != refs[b],
        forall|r: int| 0 <= r < refs.len() ==> reference_key(#[trigger] refs[r]) != total_key(),
        forall|j: int, r: int| 0 <= j < ids.len() && 0 <= r < refs.len() ==> (#[trigger] ids[j])@ != reference_key(#[trigger] refs[r]),
    ensures
        ref_counts(chunk_view(ids, counts, chr), refs, n) == if exists|r: int| 0 <= r < n && refs[r] == chr {
            count_of(chunk_view(ids, counts, chr), reference_key(chr))
        } else {
            0
        },
    decreases n,
{
    if n > 0 {
        lemma_ref_counts_chunk(ids, counts, chr, refs, n - 1);
        let c = refs[n - 1];
        if c != chr {
            lemma_reference_key_injective(c, chr);
            assert forall|j: int| 0 <= j < ids.len() implies (#[trigger] ids[j])@ != reference_key(c) by {
                assert(ids[j]@ != reference_key(refs[n - 1]));
            };
            lemma_gene_view_keys(ids, counts, ids.len() as int, reference_key(c));
            if exists|r: int| 0 <= r < n && refs[r] == chr {
                let r = choose|r: int| 0 <= r < n && refs[r] == chr;
                assert(r < n - 1);
            }
        } else {
            if exists|r: int| 0 <= r < n - 1 && refs[r] == chr {
                let r = choose|r: int| 0 <= r < n - 1 && refs[r] == chr;
                assert(refs[r] != refs[n - 1]);
            }
        }
    }
}

/// Over a whole run, the merged `_total` equals the sum of the merged counts
/// under the keys of the references, listed once each, when every chunk's
/// reference is listed, no reference key is `_total`, and no feature
/// identifier equals the key of a reference.
pub proof fn lemma_total_over_references(
    tables: Seq<Seq<(String, u32)>>,
    ids_s: Seq<Seq<String>>,
    counts_s: Seq<Seq<u32>>,
    chrs: Seq<Seq<char>>,
    refs: Seq<Seq<char>>,
)
    requires
        run_tables(tables, ids_s, counts_s, chrs),
        forall|a: int, b: int| 0 <= a < b < refs.len() ==> refs[a] != refs[b],
        forall|i: int| 0 <= i < chrs.len() ==> refs.contains(#[trigger] chrs[i]),
        forall|r: int| 0 <= r < refs.len() ==> reference_key(#[trigger] refs[r]) != total_key(),
        forall|i: int, j: int, r: int| 0 <= i < tables.len() && 0 <= j < ids_s[i].len() && 0 <= r < refs.len() ==>
            (#[trigger] ids_s[i][j])@ != reference_key(#[trigger] refs[r]),
    ensures
        sum_over(tables, total_key()) == refs_sum(tables, refs, refs.len() as int),
    decreases tables.len(),
{
    if tables.len() == 0 {
        lemma_refs_sum_empty(tables, refs, refs.len() as int);
    } else {
        let n = tables.len() - 1;
        let t = tables.drop_last();
        assert(run_tables(t, ids_s.drop_last(), counts_s.drop_last(), chrs.drop_last())) by {
            assert forall|i: int| 0 <= i < t.len() implies {
                &&& (#[trigger] ids_s.drop_last()[i]).len() == counts_s.drop_last()[i].len()
                &&& sum_counts(counts_s.drop_last()[i]) <= u32::MAX
                &&& table_view(t[i]) == chunk_view(ids_s.drop_last()[i], counts_s.drop_last()[i], chrs.drop_last()[i])
            } by {
                assert(ids_s[i] == ids_s.drop_last()[i]);
            };
        };
        assert forall|i: int| 0 <= i < chrs.drop_last().len() implies refs.contains(#[trigger] chrs.drop_last()[i]) by {
            assert(chrs[i] == chrs.drop_last()[i]);
        };
        assert forall|i: int, j: int, r: int| 0 <= i < t.len() && 0 <= j < ids_s.drop_last()[i].len() && 0 <= r < refs.len() implies
            (#[trigger] ids_s.drop_last()[i][j])@ != reference_key(#[trigger] refs[r]) by {
            assert(ids_s[i] == ids_s.drop_last()[i]);
        };
        lemma_total_over_references(t, ids_s.drop_last(), counts_s.drop_last(), chrs.drop_last(), refs);
        lemma_refs_sum_split(tables, refs, refs.len() as int);
        assert(tables.last() == tables[n]);
        let cid = ids_s[n];
        let cc = counts_s[n];
        let cchr = chrs[n];
        assert forall|j: int, r: int| 0 <= j < cid.len() && 0 <= r < refs.len() implies (#[trigger] cid[j])@ != reference_key(#[trigger] refs[r]) by {
            assert(ids_s[n][j]@ != reference_key(refs[r]));
        };
        lemma_ref_counts_chunk(cid, cc, cchr, refs, refs.len() as int);
        assert(refs.contains(chrs[n]));
        let r = choose|r: int| 0 <= r < refs.len() && refs[r] == cchr;
        assert(exists|r: int| 0 <= r < refs.len() && refs[r] == cchr);
    }
}

/// The merged result is determined by the chunk tables: two tables that both
/// meet `merge_results`'s guarantees hold the same mapping, whatever order the
/// chunks were counted in.
pub proof fn lemma_merge_determined(tables: Seq<Seq<(String, u32)>>, r1: Seq<(String, u32)>, r2: Seq<(String, u32)>)
    requires
        forall|k: Seq<char>| #[trigger] count_of(table_view(r1), k) == sum_over(tables, k),
        forall|k: Seq<char>| #[trigger] table_view(r1).contains_key(k) <==> present_in(tables, tables.len() as int, k),
        forall|k: Seq<char>| #[trigger] count_of(table_view(r2), k) == sum_over(tables, k),
        forall|k: Seq<char>| #[trigger] table_view(r2).contains_key(k) <==> present_in(tables, tables.len() as int, k),
    ensures
        table_view(r1) == table_view(r2),
{
    assert forall|k: Seq<char>| table_view(r1).contains_key(k) <==> table_view(r2).contains_key(k) by {
        assert(table_view(r1).contains_key(k) <==> present_in(tables, tables.len() as int, k));
        assert(table_view(r2).contains_key(k) <==> present_in(tables, tables.len() as int, k));
    };
    assert forall|k: Seq<char>| #[trigger] table_view(r1).contains_key(k) implies table_view(r1)[k] == table_view(r2)[k] by {
        assert(count_of(table_view(r1), k) == sum_over(tables, k));
        assert(count_of(table_view(r2), k) == sum_over(tables, k));
    };
    assert(table_view(r1) =~= table_view(r2));
}

} // verus!
