//! The bit-sliced index itself: `m` rows, one per hash bucket, each with one
//! bit per accession, or with no bits at all while no accession touched it.

use vstd::prelude::*;
use crate::bits::{bits_of, fill, filled, no_bits, width, bit, set_bit, and_bits, concat_bits, same_bits, copy_bits, Row};
use crate::hashing::{xx_hash64, hash_with_seed};

verus! {

/// The index as a mathematical value.
pub ghost struct BigsiView {
    pub rows: Seq<Seq<bool>>,
    pub num_hashes: nat,
    pub accessions: nat,
}

/// Whether `row` has accession `a` set; a row without bits has none set.
pub open spec fn row_bit(row: Seq<bool>, a: int) -> bool {
    0 <= a < row.len() && row[a]
}

/// Whether every row named in `buckets` has accession `a` set.
pub open spec fn hit(rows: Seq<Seq<bool>>, buckets: Seq<usize>, a: int) -> bool {
    forall|k: int| 0 <= k < buckets.len() ==> #[trigger] row_bit(rows[buckets[k] as int], a)
}

/// The accessions below `n` that every row named in `buckets` has set, in
/// ascending order.
pub open spec fn hits(rows: Seq<Seq<bool>>, buckets: Seq<usize>, n: nat) -> Seq<usize>
    decreases n,
{
    if n == 0 {
        Seq::empty()
    } else {
        let before = hits(rows, buckets, (n - 1) as nat);
        if hit(rows, buckets, n - 1) {
            before.push((n - 1) as usize)
        } else {
            before
        }
    }
}

/// The row that hash function `seed` picks for `value` among `m` rows.
pub open spec fn bucket_of(value: Seq<char>, seed: int, m: nat) -> usize {
    (xx_hash64(value, seed as u64) as int % m as int) as usize
}

/// The rows picked for `value` by the first `eta` hash functions.
pub open spec fn buckets_for(value: Seq<char>, eta: nat, m: nat) -> Seq<usize> {
    Seq::new(eta, |k: int| bucket_of(value, k, m))
}

/// Whether every entry of `buckets` names one of `m` rows.
pub open spec fn buckets_in_range(buckets: Seq<usize>, m: nat) -> bool {
    forall|k: int| 0 <= k < buckets.len() ==> #[trigger] buckets[k] < m
}

/// Whether some row named in `buckets` holds no bits.
pub open spec fn touches_empty(rows: Seq<Seq<bool>>, buckets: Seq<usize>) -> bool {
    exists|k: int| 0 <= k < buckets.len() && (#[trigger] rows[buckets[k] as int]).len() == 0
}

/// The bits that a raw query over `buckets` returns: none where it meets a
/// row without bits, else one bit per accession below `n`.
pub open spec fn raw_hits(rows: Seq<Seq<bool>>, buckets: Seq<usize>, n: nat) -> Seq<bool> {
    if touches_empty(rows, buckets) {
        Seq::empty()
    } else {
        Seq::new(n, |a: int| hit(rows, buckets, a))
    }
}

/// `row` with accession `a` set, a row without bits first widened to `n`
/// false bits.
pub open spec fn row_with(row: Seq<bool>, n: nat, a: int) -> Seq<bool> {
    (if row.len() == 0 {
        fill(false, n)
    } else {
        row
    }).update(a, true)
}

/// `rows` with accession `a` set in every row named in `buckets`.
pub open spec fn inserted_rows(rows: Seq<Seq<bool>>, buckets: Seq<usize>, n: nat, a: int) -> Seq<
    Seq<bool>,
> {
    Seq::new(
        rows.len(),
        |j: int|
            if buckets.contains(j as usize) {
                row_with(rows[j], n, a)
            } else {
                rows[j]
            },
    )
}

/// The row of a merge: the bits of `x` (for `n1` accessions) followed by
/// those of `y` (for `n2` accessions), where one side without bits stands for
/// false bits; two rows without bits stay without bits.
pub open spec fn merged_row(x: Seq<bool>, y: Seq<bool>, n1: nat, n2: nat) -> Seq<bool> {
    if x.len() == 0 && y.len() > 0 {
        fill(false, n1) + y
    } else if x.len() > 0 && y.len() == 0 {
        x + fill(false, n2)
    } else {
        x + y
    }
}

/// Where some row named in `buckets` has no bit set below `n`, no accession
/// below `n` is reported.
pub proof fn lemma_hits_empty(rows: Seq<Seq<bool>>, buckets: Seq<usize>, n: nat, k: int)
    requires
        0 <= k < buckets.len(),
        forall|a: int| 0 <= a < n ==> !row_bit(rows[buckets[k] as int], a),
    ensures
        hits(rows, buckets, n) == Seq::<usize>::empty(),
    decreases n,
{
    if n > 0 {
        lemma_hits_empty(rows, buckets, (n - 1) as nat, k);
        assert(!row_bit(rows[buckets[k] as int], n - 1));
    }
}

impl BigsiView {
    /// Every row has no bits or one bit per accession; there is at least one
    /// row and at least one hash function.
    pub open spec fn wf(self) -> bool {
        &&& self.rows.len() > 0
        &&& self.num_hashes >= 1
        &&& forall|j: int|
            0 <= j < self.rows.len() ==> (#[trigger] self.rows[j].len() == 0 || self.rows[j].len()
                == self.accessions)
    }

    /// The rows that a query for `value` reads.
    pub open spec fn buckets(self, value: Seq<char>) -> Seq<usize> {
        buckets_for(value, self.num_hashes, self.rows.len())
    }

    /// The accessions reported for `value`, in ascending order.
    pub open spec fn query(self, value: Seq<char>) -> Seq<usize> {
        hits(self.rows, self.buckets(value), self.accessions)
    }
    /// The index after `insert(a, value)`.
    pub open spec fn inserted(self, a: nat, value: Seq<char>) -> BigsiView {
        BigsiView {
            rows: inserted_rows(self.rows, self.buckets(value), self.accessions, a as int),
            ..self
        }
    }

    /// The index after `slim()`: rows of all false bits lose their bits.
    pub open spec fn slimmed(self) -> BigsiView {
        BigsiView {
            rows: Seq::new(
                self.rows.len(),
                |j: int|
                    if self.rows[j] == fill(false, self.accessions) {
                        Seq::empty()
                    } else {
                        self.rows[j]
                    },
            ),
            ..self
        }
    }

    /// The index after `merge(other)`: the accessions of `other` follow those
    /// of `self`.
    pub open spec fn merged(self, other: BigsiView) -> BigsiView {
        BigsiView {
            rows: Seq::new(
                self.rows.len(),
                |j: int| merged_row(self.rows[j], other.rows[j], self.accessions, other.accessions),
            ),
            num_hashes: self.num_hashes,
            accessions: self.accessions + other.accessions,
        }
    }
}

/// Why parts read back from storage do not form an index.
#[derive(Debug, PartialEq, Eq, Structural)]
pub enum DecodeError {
    /// There are no rows or no hash functions, or a row has bits but not one
    /// per accession.
    Malformed,
}

/// Why two indexes cannot be merged.
#[derive(Debug, PartialEq, Eq, Structural)]
pub enum MergeError {
    /// The indexes differ in their number of rows or of hash functions.
    ParameterMismatch,
}

/// A bit-sliced index over `accessions` accessions, with `num_hashes` hash
/// functions and one row per bucket.
pub struct Bigsi {
    pub bigsi: Vec<Row>,
    pub num_hashes: u64,
    pub accessions: u64,
}

impl View for Bigsi {
    type V = BigsiView;

    open spec fn view(&self) -> BigsiView {
        BigsiView {
            rows: self.bigsi@.map_values(|r: Row| bits_of(r)),
            num_hashes: self.num_hashes as nat,
            accessions: self.accessions as nat,
        }
    }
}

impl Bigsi {
    /// Every row has no bits or one bit per accession; there is at least one
    /// row and at least one hash function.
    pub open spec fn wf(&self) -> bool {
        self@.wf()
    }

    /// The index made of `rows`, `num_hashes` and `accessions`, where these
    /// form a well-formed index.
    pub fn from_parts(rows: Vec<Row>, num_hashes: u64, accessions: u64) -> (r: Result<Bigsi, DecodeError>)
        ensures
            r.is_ok() <==> (BigsiView {
                rows: rows@.map_values(|x: Row| bits_of(x)),
                num_hashes: num_hashes as nat,
                accessions: accessions as nat,
            }).wf(),
            r matches Ok(b) ==> b.bigsi@ == rows@ && b.num_hashes == num_hashes && b.accessions == accessions,
            r matches Err(e) ==> e == DecodeError::Malformed,
    {
        let ghost v = BigsiView {
            rows: rows@.map_values(|x: Row| bits_of(x)),
            num_hashes: num_hashes as nat,
            accessions: accessions as nat,
        };
        if rows.len() == 0 || num_hashes == 0 {
            return Err(DecodeError::Malformed);
        }
        let mut j: usize = 0;
        while j < rows.len()
            invariant
                j <= rows@.len(),
                v.rows == rows@.map_values(|x: Row| bits_of(x)),
                v.accessions == accessions,
                v.num_hashes == num_hashes,
                forall|i: int| 0 <= i < j ==> (#[trigger] v.rows[i].len() == 0 || v.rows[i].len() == accessions),
            decreases rows.len() - j,
        {
            assert(v.rows[j as int] == bits_of(rows@[j as int]));
            let w = width(&rows[j]);
            if w != 0 && w != accessions {
                return Err(DecodeError::Malformed);
            }
            j = j + 1;
        }
        Ok(Bigsi { bigsi: rows, num_hashes, accessions })
    }

    /// An index of `m` rows over `n` accessions with `eta` hash functions,
    /// every bit false.
    pub fn new(m: usize, n: u64, eta: u64) -> (r: Bigsi)
        requires
            m > 0,
            eta >= 1,
        ensures
            r.wf(),
            r@.rows == Seq::new(m as nat, |_j: int| fill(false, n as nat)),
            r@.num_hashes == eta,
            r@.accessions == n,
    {
        let mut rows: Vec<Row> = Vec::new();
        let mut j: usize = 0;
        while j < m
            invariant
                j <= m,
                rows@.len() == j,
                forall|i: int| 0 <= i < j ==> bits_of(#[trigger] rows@[i]) == fill(false, n as nat),
            decreases m - j,
        {
            rows.push(filled(false, n));
            j = j + 1;
        }
        let r = Bigsi { bigsi: rows, num_hashes: eta, accessions: n };
        assert(r@.rows =~= Seq::new(m as nat, |_j: int| fill(false, n as nat)));
        r
    }

    /// An index of 1000 rows over 10 accessions with 2 hash functions, every
    /// bit false.
    pub fn default() -> (r: Bigsi)
        ensures
            r.wf(),
            r@.rows == Seq::new(1000, |_j: int| fill(false, 10)),
            r@.num_hashes == 2,
            r@.accessions == 10,
    {
        Bigsi::new(1000, 10, 2)
    }

    /// The row picked for `value` by each of the index's hash functions, the
    /// function with seed 0 first.
    pub fn buckets(&self, value: &str) -> (r: Vec<usize>)
        requires
            self.wf(),
        ensures
            r@ == self@.buckets(value@),
    {
        let m = self.bigsi.len();
        let mut r: Vec<usize> = Vec::new();
        let mut i: u64 = 0;
        while i < self.num_hashes
            invariant
                i <= self.num_hashes,
                m == self@.rows.len(),
                m > 0,
                r@ == buckets_for(value@, i as nat, m as nat),
            decreases self.num_hashes - i,
        {
            let h = hash_with_seed(value, i);
            let b = (h % (m as u64)) as usize;
            r.push(b);
            i = i + 1;
            assert(r@ =~= buckets_for(value@, i as nat, m as nat));
        }
        r
    }
    /// The accessions that every row in `buckets` has set, in ascending
    /// order; empty as soon as one of those rows holds no bits.
    pub fn get_buckets(&self, buckets: &Vec<usize>) -> (r: Vec<usize>)
        requires
            self.wf(),
            buckets_in_range(buckets@, self@.rows.len()),
        ensures
            r@ == hits(self@.rows, buckets@, self@.accessions),
    {
        let ghost rows = self@.rows;
        let ghost n = self@.accessions;
        let mut acc = filled(true, self.accessions);
        let mut i: usize = 0;
        while i < buckets.len()
            invariant
                self.wf(),
                rows == self@.rows,
                n == self.accessions,
                buckets_in_range(buckets@, rows.len()),
                i <= buckets@.len(),
                bits_of(acc) == Seq::new(n, |a: int| hit(rows, buckets@.subrange(0, i as int), a)),
            decreases buckets.len() - i,
        {
            let b = buckets[i];
            let row = &self.bigsi[b];
            assert(bits_of(*row) == rows[b as int]);
            if width(row) == 0 {
                proof {
                    lemma_hits_empty(rows, buckets@, n, i as int);
                }
                return Vec::new();
            }
            let ghost prev = bits_of(acc);
            acc = and_bits(&acc, row);
            i = i + 1;
            assert forall|a: int| 0 <= a < n implies bits_of(acc)[a] == hit(rows, buckets@.subrange(0, i as int), a) by {
                let sub = buckets@.subrange(0, i as int);
                let psub = buckets@.subrange(0, i - 1);
                assert(prev[a] == hit(rows, psub, a));
                if hit(rows, sub, a) {
                    assert forall|k: int| 0 <= k < psub.len() implies #[trigger] row_bit(rows[psub[k] as int], a) by {
                        assert(psub[k] == sub[k]);
                        assert(row_bit(rows[sub[k] as int], a));
                    }
                    assert(row_bit(rows[sub[i - 1] as int], a));
                }
                if bits_of(acc)[a] {
                    assert forall|k: int| 0 <= k < sub.len() implies #[trigger] row_bit(rows[sub[k] as int], a) by {
                        if k < i - 1 {
                            assert(psub[k] == sub[k]);
                            assert(row_bit(rows[psub[k] as int], a));
                        }
                    }
                }
            }
            assert(bits_of(acc) =~= Seq::new(n, |a: int| hit(rows, buckets@.subrange(0, i as int), a)));
        }
        assert(buckets@.subrange(0, i as int) =~= buckets@);
        let mut found: Vec<usize> = Vec::new();
        let mut item: u64 = 0;
        while item < self.accessions
            invariant
                item <= n,
                n == self.accessions,
                buckets@.subrange(0, buckets@.len() as int) == buckets@,
                bits_of(acc) == Seq::new(n, |a: int| hit(rows, buckets@, a)),
                found@ == hits(rows, buckets@, item as nat),
            decreases self.accessions - item,
        {
            if bit(&acc, item) {
                found.push(item as usize);
            }
            item = item + 1;
        }
        found
    }

    /// The accessions that may contain `value`, in ascending order.
    pub fn get(&self, value: &str) -> (r: Vec<usize>)
        requires
            self.wf(),
        ensures
            r@ == self@.query(value@),
    {
        let buckets = self.buckets(value);
        self.get_buckets(&buckets)
    }

    /// The conjunction of the rows in `buckets`, one bit per accession; where
    /// one of those rows holds no bits, a vector of no bits.
    pub fn get_bv_buckets(&self, buckets: &Vec<usize>) -> (r: Row)
        requires
            self.wf(),
            buckets_in_range(buckets@, self@.rows.len()),
        ensures
            bits_of(r) == raw_hits(self@.rows, buckets@, self@.accessions),
    {
        let ghost rows = self@.rows;
        let ghost n = self@.accessions;
        let mut acc = filled(true, self.accessions);
        let mut i: usize = 0;
        while i < buckets.len()
            invariant
                self.wf(),
                rows == self@.rows,
                n == self.accessions,
                buckets_in_range(buckets@, rows.len()),
                i <= buckets@.len(),
                forall|k: int| 0 <= k < i ==> (#[trigger] rows[buckets@[k] as int]).len() > 0,
                bits_of(acc) == Seq::new(n, |a: int| hit(rows, buckets@.subrange(0, i as int), a)),
            decreases buckets.len() - i,
        {
            let b = buckets[i];
            let row = &self.bigsi[b];
            assert(bits_of(*row) == rows[b as int]);
            if width(row) == 0 {
                assert(touches_empty(rows, buckets@)) by {
                    assert(rows[buckets@[i as int] as int].len() == 0);
                }
                return copy_bits(row);
            }
            let ghost prev = bits_of(acc);
            acc = and_bits(&acc, row);
            i = i + 1;
            assert forall|a: int| 0 <= a < n implies bits_of(acc)[a] == hit(rows, buckets@.subrange(0, i as int), a) by {
                let sub = buckets@.subrange(0, i as int);
                let psub = buckets@.subrange(0, i - 1);
                assert(prev[a] == hit(rows, psub, a));
                if hit(rows, sub, a) {
                    assert forall|k: int| 0 <= k < psub.len() implies #[trigger] row_bit(rows[psub[k] as int], a) by {
                        assert(psub[k] == sub[k]);
                        assert(row_bit(rows[sub[k] as int], a));
                    }
                    assert(row_bit(rows[sub[i - 1] as int], a));
                }
                if bits_of(acc)[a] {
                    assert forall|k: int| 0 <= k < sub.len() implies #[trigger] row_bit(rows[sub[k] as int], a) by {
                        if k < i - 1 {
                            assert(psub[k] == sub[k]);
                            assert(row_bit(rows[psub[k] as int], a));
                        }
                    }
                }
            }
            assert(bits_of(acc) =~= Seq::new(n, |a: int| hit(rows, buckets@.subrange(0, i as int), a)));
        }
        assert(buckets@.subrange(0, i as int) =~= buckets@);
        assert(!touches_empty(rows, buckets@));
        acc
    }

    /// The hits for `value` as a bit vector, one bit per accession; a vector
    /// of no bits where one of the rows it reads holds no bits.
    pub fn get_bv(&self, value: &str) -> (r: Row)
        requires
            self.wf(),
        ensures
            bits_of(r) == raw_hits(self@.rows, self@.buckets(value@), self@.accessions),
    {
        let buckets = self.buckets(value);
        self.get_bv_buckets(&buckets)
    }

    /// Sets accession `accession` in every row named in `buckets`; a row
    /// without bits first gets one false bit per accession.
    pub fn insert_buckets(&mut self, accession: u64, buckets: &Vec<usize>)
        requires
            old(self).wf(),
            accession < old(self)@.accessions,
            buckets_in_range(buckets@, old(self)@.rows.len()),
        ensures
            final(self).wf(),
            final(self)@ == (BigsiView {
                rows: inserted_rows(old(self)@.rows, buckets@, old(self)@.accessions, accession as int),
                ..old(self)@
            }),
    {
        let ghost start = self@;
        let ghost n = self@.accessions;
        let ghost a = accession as int;
        let m = self.bigsi.len();
        let mut i: usize = 0;
        assert(start.rows =~= inserted_rows(start.rows, buckets@.subrange(0, 0), n, a));
        while i < buckets.len()
            invariant
                self.wf(),
                i <= buckets@.len(),
                a == accession,
                a < n,
                n == self.accessions,
                start.wf(),
                start.accessions == n,
                start.rows.len() == m,
                self.num_hashes == start.num_hashes,
                buckets_in_range(buckets@, start.rows.len()),
                self@.rows == inserted_rows(start.rows, buckets@.subrange(0, i as int), n, a),
            decreases buckets.len() - i,
        {
            let b = buckets[i];
            let ghost cur = self@.rows;
            assert(cur[b as int] == bits_of(self.bigsi@[b as int]));
            if width(&self.bigsi[b]) == 0 {
                self.bigsi.set(b, filled(false, self.accessions));
                assert(self@.rows =~= cur.update(b as int, fill(false, n)));
            }
            assert(self@.rows[b as int] == bits_of(self.bigsi@[b as int]));
            assert(bits_of(self.bigsi@[b as int]).len() == n);
            let ghost mid = self@.rows;
            set_bit(&mut self.bigsi[b], accession, true);
            i = i + 1;
            let ghost sub = buckets@.subrange(0, i as int);
            let ghost psub = buckets@.subrange(0, i - 1);
            assert(sub =~= psub.push(b));
            assert(self@.rows =~= mid.update(b as int, mid[b as int].update(a, true)));
            assert(self@.rows[b as int] =~= row_with(cur[b as int], n, a));
            assert(row_with(start.rows[b as int], n, a) =~= row_with(row_with(start.rows[b as int], n, a), n, a));
            assert forall|j: int| 0 <= j < start.rows.len() implies #[trigger] self@.rows[j]
                == inserted_rows(start.rows, sub, n, a)[j] by {
                assert(sub[i - 1] == b);
                if sub.contains(j as usize) && j != b {
                    let w = choose|w: int| 0 <= w < sub.len() && sub[w] == j as usize;
                    assert(psub[w] == j as usize);
                }
                if psub.contains(j as usize) {
                    let w = choose|w: int| 0 <= w < psub.len() && psub[w] == j as usize;
                    assert(sub[w] == j as usize);
                }
            }
            assert(self@.rows =~= inserted_rows(start.rows, sub, n, a));
        }
        assert(buckets@.subrange(0, i as int) =~= buckets@);
    }

    /// Records that accession `accession` holds `value`.
    pub fn insert(&mut self, accession: u64, value: &str)
        requires
            old(self).wf(),
            accession < old(self)@.accessions,
        ensures
            final(self).wf(),
            final(self)@ == old(self)@.inserted(accession as nat, value@),
    {
        let buckets = self.buckets(value);
        self.insert_buckets(accession, &buckets);
    }

    /// Drops the bits of every row whose bits are all false; queries answer
    /// as before.
    pub fn slim(&mut self)
        requires
            old(self).wf(),
        ensures
            final(self).wf(),
            final(self)@ == old(self)@.slimmed(),
    {
        let ghost start = self@;
        let empty = filled(false, self.accessions);
        let mut j: usize = 0;
        while j < self.bigsi.len()
            invariant
                start.wf(),
                j <= self.bigsi@.len(),
                self.bigsi@.len() == start.rows.len(),
                self.num_hashes == start.num_hashes,
                self.accessions == start.accessions,
                bits_of(empty) == fill(false, start.accessions),
                forall|i: int| 0 <= i < j ==> (#[trigger] self@.rows[i]) == start.slimmed().rows[i],
                forall|i: int| j <= i < self.bigsi@.len() ==> (#[trigger] self@.rows[i]) == start.rows[i],
            decreases self.bigsi.len() - j,
        {
            let ghost cur = self@.rows;
            assert(cur[j as int] == bits_of(self.bigsi@[j as int]));
            if same_bits(&self.bigsi[j], &empty) {
                self.bigsi.set(j, no_bits());
                assert(self@.rows =~= cur.update(j as int, Seq::<bool>::empty()));
            } else {
                assert(self@.rows =~= cur);
            }
            assert(self@.rows =~= cur.update(j as int, start.slimmed().rows[j as int]));
            j = j + 1;
        }
        assert(self@.rows =~= start.slimmed().rows);
    }

    /// Appends the accessions of `other` after those of `self`, row by row.
    /// Fails, leaving `self` as it was, where the two differ in their number
    /// of rows or of hash functions.
    pub fn merge(&mut self, other: &Bigsi) -> (r: Result<(), MergeError>)
        requires
            old(self).wf(),
            other.wf(),
            old(self)@.accessions + other@.accessions <= u64::MAX,
        ensures
            r.is_err() <==> (old(self)@.num_hashes != other@.num_hashes || old(self)@.rows.len()
                != other@.rows.len()),
            r.is_err() ==> final(self)@ == old(self)@,
            r.is_ok() ==> final(self)@ == old(self)@.merged(other@),
            final(self).wf(),
    {
        if self.num_hashes != other.num_hashes || self.bigsi.len() != other.bigsi.len() {
            return Err(MergeError::ParameterMismatch);
        }
        let ghost start = self@;
        let n1 = self.accessions;
        let n2 = other.accessions;
        let mut rows: Vec<Row> = Vec::new();
        let mut j: usize = 0;
        while j < self.bigsi.len()
            invariant
                start == self@,
                start.wf(),
                other.wf(),
                n1 == start.accessions,
                n2 == other@.accessions,
                n1 + n2 <= u64::MAX,
                self.bigsi@.len() == other.bigsi@.len(),
                j <= self.bigsi@.len(),
                rows@.len() == j,
                forall|i: int| 0 <= i < j ==> bits_of(#[trigger] rows@[i]) == merged_row(start.rows[i], other@.rows[i], n1 as nat, n2 as nat),
            decreases self.bigsi.len() - j,
        {
            let x = &self.bigsi[j];
            let y = &other.bigsi[j];
            assert(bits_of(*x) == start.rows[j as int]);
            assert(bits_of(*y) == other@.rows[j as int]);
            let row = if width(x) == 0 && width(y) > 0 {
                concat_bits(&filled(false, n1), y)
            } else if width(x) > 0 && width(y) == 0 {
                concat_bits(x, &filled(false, n2))
            } else {
                concat_bits(x, y)
            };
            rows.push(row);
            j = j + 1;
        }
        self.bigsi = rows;
        self.accessions = n1 + n2;
        assert(self@.rows =~= start.merged(other@).rows);
        Ok(())
    }

}

} // verus!
