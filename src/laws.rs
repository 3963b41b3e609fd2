//! Properties that relate the index's operations to one another.

use vstd::prelude::*;
use crate::bits::fill;
use crate::index::{BigsiView, row_bit, hit, hits, row_with, merged_row, lemma_hits_empty};

verus! {

/// An accession below `n` is reported exactly when every row named in
/// `buckets` has it set.
pub proof fn lemma_hits_contains(rows: Seq<Seq<bool>>, buckets: Seq<usize>, n: nat, a: usize)
    requires
        n <= usize::MAX,
    ensures
        hits(rows, buckets, n).contains(a) <==> (a < n && hit(rows, buckets, a as int)),
    decreases n,
{
    if n > 0 {
        lemma_hits_contains(rows, buckets, (n - 1) as nat, a);
        let before = hits(rows, buckets, (n - 1) as nat);
        if hit(rows, buckets, n - 1) {
            let after = before.push((n - 1) as usize);
            assert(after[before.len() as int] == (n - 1) as usize);
            if after.contains(a) {
                let w = choose|w: int| 0 <= w < after.len() && after[w] == a;
                if w < before.len() {
                    assert(before[w] == a);
                }
            }
            if before.contains(a) {
                let w = choose|w: int| 0 <= w < before.len() && before[w] == a;
                assert(after[w] == a);
            }
        }
    }
}

/// Two sets of rows that agree on which accessions below `n` they report give
/// the same report.
pub proof fn lemma_hits_agree(
    rows1: Seq<Seq<bool>>,
    rows2: Seq<Seq<bool>>,
    buckets: Seq<usize>,
    n: nat,
)
    requires
        forall|a: int| 0 <= a < n ==> hit(rows1, buckets, a) == hit(rows2, buckets, a),
    ensures
        hits(rows1, buckets, n) == hits(rows2, buckets, n),
    decreases n,
{
    if n > 0 {
        lemma_hits_agree(rows1, rows2, buckets, (n - 1) as nat);
    }
}

/// No false negatives: once accession `a` has been given `value`, a query for
/// `value` reports `a`.
pub proof fn lemma_no_false_negatives(index: BigsiView, a: nat, value: Seq<char>)
    requires
        index.wf(),
        a < index.accessions,
        index.accessions <= usize::MAX,
    ensures
        index.inserted(a, value).query(value).contains(a as usize),
{
    let after = index.inserted(a, value);
    let buckets = index.buckets(value);
    assert(after.buckets(value) == buckets);
    assert forall|k: int| 0 <= k < buckets.len() implies #[trigger] row_bit(
        after.rows[buckets[k] as int],
        a as int,
    ) by {
        assert(buckets.contains(buckets[k]));
        let row = index.rows[buckets[k] as int];
        assert(row_with(row, index.accessions, a as int)[a as int]);
    }
    lemma_hits_contains(after.rows, buckets, after.accessions, a as usize);
}

/// A value one of whose rows has no accession set is reported for no
/// accession.
pub proof fn lemma_untouched_value_empty(index: BigsiView, value: Seq<char>, k: int)
    requires
        index.wf(),
        0 <= k < index.num_hashes,
        !index.rows[index.buckets(value)[k] as int].contains(true),
    ensures
        index.query(value) == Seq::<usize>::empty(),
{
    let row = index.rows[index.buckets(value)[k] as int];
    assert forall|a: int| 0 <= a < index.accessions implies !row_bit(row, a) by {
        if row_bit(row, a) {
            assert(row[a] == true);
        }
    }
    lemma_hits_empty(index.rows, index.buckets(value), index.accessions, k);
}

/// Inserting never takes away an accession that a query already reports.
pub proof fn lemma_insert_keeps_hits(index: BigsiView, a: nat, value: Seq<char>, query: Seq<char>, b: usize)
    requires
        index.wf(),
        a < index.accessions,
        index.accessions <= usize::MAX,
        index.query(query).contains(b),
    ensures
        index.inserted(a, value).query(query).contains(b),
{
    let after = index.inserted(a, value);
    let buckets = index.buckets(query);
    assert(after.buckets(query) == buckets);
    lemma_hits_contains(index.rows, buckets, index.accessions, b);
    assert forall|k: int| 0 <= k < buckets.len() implies #[trigger] row_bit(
        after.rows[buckets[k] as int],
        b as int,
    ) by {
        assert(row_bit(index.rows[buckets[k] as int], b as int));
    }
    lemma_hits_contains(after.rows, buckets, after.accessions, b);
}

/// Slimming never changes what a query reports.
pub proof fn lemma_slim_transparent(index: BigsiView, value: Seq<char>)
    requires
        index.wf(),
    ensures
        index.slimmed().query(value) == index.query(value),
{
    let after = index.slimmed();
    let buckets = index.buckets(value);
    let n = index.accessions;
    assert(after.buckets(value) == buckets);
    assert forall|x: int| 0 <= x < n implies hit(after.rows, buckets, x) == hit(index.rows, buckets, x) by {
        assert forall|k: int| 0 <= k < buckets.len() implies #[trigger] row_bit(after.rows[buckets[k] as int], x)
            == row_bit(index.rows[buckets[k] as int], x) by {
            let row = index.rows[buckets[k] as int];
            if row == fill(false, n) {
                assert(!row[x]);
            }
        }
        if hit(index.rows, buckets, x) {
            assert forall|k: int| 0 <= k < buckets.len() implies #[trigger] row_bit(after.rows[buckets[k] as int], x) by {
                assert(row_bit(index.rows[buckets[k] as int], x));
            }
        }
        if hit(after.rows, buckets, x) {
            assert forall|k: int| 0 <= k < buckets.len() implies #[trigger] row_bit(index.rows[buckets[k] as int], x) by {
                assert(row_bit(after.rows[buckets[k] as int], x));
            }
        }
    }
    lemma_hits_agree(after.rows, index.rows, buckets, n);
}

/// In a merged row, the first `n1` accessions read as in `x` and the next `n2`
/// as in `y`.
pub proof fn lemma_merged_row_bits(x: Seq<bool>, y: Seq<bool>, n1: nat, n2: nat)
    requires
        x.len() == 0 || x.len() == n1,
        y.len() == 0 || y.len() == n2,
    ensures
        forall|i: int| 0 <= i < n1 ==> #[trigger] row_bit(merged_row(x, y, n1, n2), i) == row_bit(x, i),
        forall|j: int| 0 <= j < n2 ==> #[trigger] row_bit(merged_row(x, y, n1, n2), n1 + j) == row_bit(y, j),
        (x.len() > 0 || y.len() > 0) ==> merged_row(x, y, n1, n2).len() == n1 + n2,
        (x.len() == 0 && y.len() == 0) ==> merged_row(x, y, n1, n2).len() == 0,
{
}

/// Merging `b` into `a` gives rows of one bit per accession of either index,
/// save where neither index had any bits in that row.
pub proof fn lemma_merge_widths(a: BigsiView, b: BigsiView)
    requires
        a.wf(),
        b.wf(),
        a.rows.len() == b.rows.len(),
    ensures
        a.merged(b).wf(),
        forall|j: int| 0 <= j < a.rows.len() ==> (#[trigger] a.merged(b).rows[j]).len() == if a.rows[j].len() > 0
            || b.rows[j].len() > 0 {
            a.accessions + b.accessions
        } else {
            0
        },
{
    assert forall|j: int| 0 <= j < a.rows.len() implies (#[trigger] a.merged(b).rows[j]).len() == if a.rows[j].len() > 0
        || b.rows[j].len() > 0 {
        a.accessions + b.accessions
    } else {
        0
    } by {
        lemma_merged_row_bits(a.rows[j], b.rows[j], a.accessions, b.accessions);
    }
}

/// After merging `b` into `a`, accession `i < n1` is reported for a value
/// exactly as `a` reports it, and accession `n1 + j` exactly as `b` reports
/// accession `j`.
pub proof fn lemma_merge_keeps_accessions(a: BigsiView, b: BigsiView, value: Seq<char>, i: usize, j: usize)
    requires
        a.wf(),
        b.wf(),
        a.rows.len() == b.rows.len(),
        a.num_hashes == b.num_hashes,
        a.accessions + b.accessions <= usize::MAX,
    ensures
        i < a.accessions ==> (a.merged(b).query(value).contains(i) <==> a.query(value).contains(i)),
        j < b.accessions ==> (a.merged(b).query(value).contains((a.accessions + j) as usize)
            <==> b.query(value).contains(j)),
{
    let m = a.merged(b);
    let n1 = a.accessions;
    let n2 = b.accessions;
    let buckets = a.buckets(value);
    assert(m.buckets(value) == buckets);
    assert(b.buckets(value) == buckets);
    lemma_hits_contains(m.rows, buckets, m.accessions, i);
    lemma_hits_contains(a.rows, buckets, n1, i);
    lemma_hits_contains(m.rows, buckets, m.accessions, (n1 + j) as usize);
    lemma_hits_contains(b.rows, buckets, n2, j);
    if i < n1 {
        if hit(m.rows, buckets, i as int) {
            assert forall|k: int| 0 <= k < buckets.len() implies #[trigger] row_bit(a.rows[buckets[k] as int], i as int) by {
                lemma_merged_row_bits(a.rows[buckets[k] as int], b.rows[buckets[k] as int], n1, n2);
                assert(row_bit(m.rows[buckets[k] as int], i as int));
            }
        }
        if hit(a.rows, buckets, i as int) {
            assert forall|k: int| 0 <= k < buckets.len() implies #[trigger] row_bit(m.rows[buckets[k] as int], i as int) by {
                lemma_merged_row_bits(a.rows[buckets[k] as int], b.rows[buckets[k] as int], n1, n2);
                assert(row_bit(a.rows[buckets[k] as int], i as int));
            }
        }
    }
    if j < n2 {
        if hit(m.rows, buckets, n1 + j) {
            assert forall|k: int| 0 <= k < buckets.len() implies #[trigger] row_bit(b.rows[buckets[k] as int], j as int) by {
                lemma_merged_row_bits(a.rows[buckets[k] as int], b.rows[buckets[k] as int], n1, n2);
                assert(row_bit(m.rows[buckets[k] as int], n1 + j));
            }
        }
        if hit(b.rows, buckets, j as int) {
            assert forall|k: int| 0 <= k < buckets.len() implies #[trigger] row_bit(m.rows[buckets[k] as int], n1 + j) by {
                lemma_merged_row_bits(a.rows[buckets[k] as int], b.rows[buckets[k] as int], n1, n2);
                assert(row_bit(b.rows[buckets[k] as int], j as int));
            }
        }
    }
}

} // verus!
