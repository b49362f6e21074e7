//! Which rows of a vector index a filter allows, as one bit per row.

use vstd::prelude::*;

verus! {

/// Bit `k` of a word.
pub open spec fn word_bit(word: u64, k: u64) -> bool {
    (word >> k) & 1 == 1
}

/// Bit `i` of a list of words; bits past the end are not set.
pub open spec fn bit_at(words: Seq<u64>, i: int) -> bool {
    0 <= i / 64 < words.len() && word_bit(words[i / 64], (i % 64) as u64)
}

/// How many words hold a bit for each of `rows` rows.
pub open spec fn words_needed(rows: int) -> int {
    (rows + 63) / 64
}

pub proof fn lemma_bit_ops(a: u64, b: u64, k: u64)
    by (bit_vector)
    requires
        k < 64,
    ensures
        word_bit(a & b, k) == (word_bit(a, k) && word_bit(b, k)),
        word_bit(a | b, k) == (word_bit(a, k) || word_bit(b, k)),
        word_bit(!a, k) == !word_bit(a, k),
        !word_bit(0, k),
        word_bit(0xffff_ffff_ffff_ffff, k),
{
}

proof fn lemma_single_bit(j: u64, k: u64)
    by (bit_vector)
    requires
        j < 64,
        k < 64,
    ensures
        word_bit(1u64 << j, k) == (j == k),
{
}

/// The low `n` bits.
proof fn lemma_low_bits(n: u64, k: u64)
    by (bit_vector)
    requires
        0 < n < 64,
        k < 64,
    ensures
        (1u64 << n) >= 1,
        word_bit(((1u64 << n) - 1) as u64, k) == (k < n),
{
}

proof fn lemma_and_bit(word: u64, k: u64)
    by (bit_vector)
    requires
        k < 64,
    ensures
        ((word & (1u64 << k)) != 0) == word_bit(word, k),
{
}

proof fn lemma_some_bit(word: u64)
    requires
        word != 0,
    ensures
        exists|k: u64| k < 64 && #[trigger] word_bit(word, k),
    decreases word,
{
    assert(word_bit(word, 0) <==> word % 2 == 1) by (bit_vector);
    if word % 2 == 1 {
        assert(word_bit(word, 0));
    } else {
        let half: u64 = word / 2;
        lemma_some_bit(half);
        let k = choose|k: u64| k < 64 && #[trigger] word_bit(half, k);
        assert(k < 63 && word_bit(word, (k + 1) as u64)) by (bit_vector)
            requires
                half == word / 2,
                word % 2 == 0,
                k < 64,
                word_bit(half, k),
        ;
        assert(word_bit(word, (k + 1) as u64));
    }
}

/// How many words hold a bit for each of `row_count` rows.
pub fn words_for_rows(row_count: usize) -> (n: usize)
    ensures
        n == words_needed(row_count as int),
{
    if row_count % 64 == 0 {
        row_count / 64
    } else {
        row_count / 64 + 1
    }
}

/// Words with no bit set.
pub fn zero_words(n: usize) -> (words: Vec<u64>)
    ensures
        words@.len() == n,
        forall|i: int| 0 <= i < n ==> #[trigger] words@[i] == 0,
        forall|i: int| !#[trigger] bit_at(words@, i),
{
    let mut words: Vec<u64> = Vec::new();
    let mut i: usize = 0;
    while i < n
        invariant
            i <= n,
            words@.len() == i,
            forall|j: int| 0 <= j < i ==> #[trigger] words@[j] == 0,
        decreases n - i,
    {
        words.push(0);
        i = i + 1;
    }
    assert forall|j: int| !#[trigger] bit_at(words@, j) by {
        lemma_bit_ops(0, 0, (j % 64) as u64);
    }
    words
}

/// A copy of a list of words.
fn copy_words(words: &Vec<u64>) -> (r: Vec<u64>)
    ensures
        r@ == words@,
{
    let mut r: Vec<u64> = Vec::new();
    let mut i: usize = 0;
    while i < words.len()
        invariant
            i <= words@.len(),
            r@ == words@.take(i as int),
        decreases words@.len() - i,
    {
        r.push(words[i]);
        i = i + 1;
        assert(r@ =~= words@.take(i as int));
    }
    assert(r@ =~= words@);
    r
}

/// Sets bit `i`.
pub fn set_bit(words: &mut Vec<u64>, i: usize)
    requires
        i / 64 < old(words)@.len(),
    ensures
        final(words)@.len() == old(words)@.len(),
        forall|j: int| #[trigger]
            bit_at(final(words)@, j) == (j == i || bit_at(old(words)@, j)),
{
    let w: usize = i / 64;
    let b: u64 = (i % 64) as u64;
    let ghost before = words@;
    let value: u64 = words[w] | (1u64 << b);
    words.set(w, value);
    assert forall|j: int| #[trigger] bit_at(words@, j) == (j == i || bit_at(before, j)) by {
        let k = (j % 64) as u64;
        if j / 64 == w {
            lemma_bit_ops(before[w as int], 1u64 << b, k);
            lemma_single_bit(b, k);
        }
    }
}

/// Whether bit `i` is set.
pub fn has_bit(words: &Vec<u64>, i: usize) -> (b: bool)
    requires
        i / 64 < words@.len(),
    ensures
        b == bit_at(words@, i as int),
{
    let k: u64 = (i % 64) as u64;
    proof {
        lemma_and_bit(words@[i as int / 64], k);
    }
    words[i / 64] & (1u64 << k) != 0
}

/// Sets in `words` every bit that is set in `more` and that `words` has room for.
pub fn unite_words(words: &mut Vec<u64>, more: &Vec<u64>)
    ensures
        final(words)@.len() == old(words)@.len(),
        forall|j: int| #[trigger]
            bit_at(final(words)@, j) == (bit_at(old(words)@, j) || (j / 64 < old(words)@.len()
                && bit_at(more@, j))),
{
    let ghost before = words@;
    let mut i: usize = 0;
    while i < words.len() && i < more.len()
        invariant
            i <= words@.len(),
            i <= more@.len(),
            words@.len() == before.len(),
            forall|j: int| 0 <= j < i ==> #[trigger] words@[j] == before[j] | more@[j],
            forall|j: int| i <= j < before.len() ==> #[trigger] words@[j] == before[j],
        decreases words@.len() - i,
    {
        let value: u64 = words[i] | more[i];
        words.set(i, value);
        i = i + 1;
    }
    assert forall|j: int| #[trigger] bit_at(words@, j) == (bit_at(before, j) || (j / 64
        < before.len() && bit_at(more@, j))) by {
        let w = j / 64;
        if 0 <= w < before.len() && w < more@.len() {
            lemma_bit_ops(before[w], more@[w], (j % 64) as u64);
        }
    }
}

/// Clears in `words` every bit that `more` has room for and does not have set.
fn intersect_words(words: &mut Vec<u64>, more: &Vec<u64>)
    ensures
        final(words)@.len() == old(words)@.len(),
        forall|j: int| #[trigger]
            bit_at(final(words)@, j) == (bit_at(old(words)@, j) && (j / 64 < more@.len() ==> bit_at(
                more@,
                j,
            ))),
{
    let ghost before = words@;
    let mut i: usize = 0;
    while i < words.len() && i < more.len()
        invariant
            i <= words@.len(),
            i <= more@.len(),
            words@.len() == before.len(),
            forall|j: int| 0 <= j < i ==> #[trigger] words@[j] == before[j] & more@[j],
            forall|j: int| i <= j < before.len() ==> #[trigger] words@[j] == before[j],
        decreases words@.len() - i,
    {
        let value: u64 = words[i] & more[i];
        words.set(i, value);
        i = i + 1;
    }
    assert forall|j: int| #[trigger] bit_at(words@, j) == (bit_at(before, j) && (j / 64
        < more@.len() ==> bit_at(more@, j))) by {
        let w = j / 64;
        if 0 <= w < before.len() && w < more@.len() {
            lemma_bit_ops(before[w], more@[w], (j % 64) as u64);
        }
    }
}

/// The words with every bit below `rows` turned over, and the others clear.
fn inverted_words(words: &Vec<u64>, rows: usize) -> (r: Vec<u64>)
    requires
        words@.len() == words_needed(rows as int),
    ensures
        r@.len() == words@.len(),
        forall|j: int| #[trigger] bit_at(r@, j) == (0 <= j < rows && !bit_at(words@, j)),
{
    let mut r: Vec<u64> = Vec::new();
    let mut i: usize = 0;
    while i < words.len()
        invariant
            i <= words@.len(),
            r@.len() == i,
            forall|j: int| 0 <= j < i ==> #[trigger] r@[j] == !words@[j],
        decreases words@.len() - i,
    {
        r.push(!words[i]);
        i = i + 1;
    }
    let ghost full = r@;
    let extra: u64 = (rows % 64) as u64;
    if extra != 0 {
        let last: usize = r.len() - 1;
        proof {
            lemma_low_bits(extra, 0);
        }
        let value: u64 = r[last] & ((1u64 << extra) - 1);
        r.set(last, value);
    }
    assert forall|j: int| #[trigger] bit_at(r@, j) == (0 <= j < rows && !bit_at(words@, j)) by {
        let w = j / 64;
        let k = (j % 64) as u64;
        if 0 <= w < words@.len() {
            lemma_bit_ops(words@[w], 0, k);
            if extra != 0 && w == words@.len() - 1 {
                lemma_low_bits(extra, k);
                lemma_bit_ops(full[w], ((1u64 << extra) - 1) as u64, k);
            }
        }
    }
    r
}

/// Whether any word is not zero.
pub fn any_bit(words: &Vec<u64>) -> (b: bool)
    ensures
        b == exists|i: int| #[trigger] bit_at(words@, i),
{
    let mut i: usize = 0;
    while i < words.len()
        invariant
            i <= words@.len(),
            forall|j: int| 0 <= j < i ==> #[trigger] words@[j] == 0,
        decreases words@.len() - i,
    {
        if words[i] != 0 {
            proof {
                lemma_some_bit(words@[i as int]);
                let k = choose|k: u64| k < 64 && #[trigger] word_bit(words@[i as int], k);
                assert((64 * i + k) / 64 == i);
                assert((64 * i + k) % 64 == k);
                assert(bit_at(words@, 64 * i + k));
            }
            return true;
        }
        i = i + 1;
    }
    assert forall|j: int| !#[trigger] bit_at(words@, j) by {
        if 0 <= j / 64 < words@.len() {
            assert(words@[j / 64] == 0);
            lemma_bit_ops(0, 0, (j % 64) as u64);
        }
    }
    false
}

/// Which rows of each cluster a filter allows.
#[derive(Clone, Debug, PartialEq, Eq)]
pub struct VectorFilterMask {
    row_counts: Vec<usize>,
    rows: Vec<Vec<u64>>,
}

impl VectorFilterMask {
    /// How many rows each cluster has.
    pub closed spec fn shape(self) -> Seq<usize> {
        self.row_counts@
    }

    /// The bit of a row.
    pub closed spec fn bit(self, cluster: int, row: int) -> bool {
        0 <= cluster < self.rows@.len() && bit_at(self.rows@[cluster]@, row)
    }

    /// A row that the mask has a bit for.
    pub closed spec fn covers(self, cluster: int, row: int) -> bool {
        0 <= cluster < self.rows@.len() && 0 <= row / 64 < self.rows@[cluster]@.len()
    }

    /// Every cluster has the words that its rows need.
    pub closed spec fn wf(self) -> bool {
        &&& self.rows@.len() == self.row_counts@.len()
        &&& forall|c: int|
            0 <= c < self.rows@.len() ==> (#[trigger] self.rows@[c])@.len() == words_needed(
                self.row_counts@[c] as int,
            )
    }

    /// The mask allows a row: there is such a row, and its bit is set.
    pub open spec fn allows_row(self, cluster: int, row: int) -> bool {
        0 <= cluster < self.shape().len() && 0 <= row < self.shape()[cluster] && self.bit(
            cluster,
            row,
        )
    }

    /// No bit is set for a row that a cluster does not have.
    pub open spec fn trimmed(self) -> bool {
        forall|c: int, i: int| #[trigger]
            self.bit(c, i) ==> 0 <= c < self.shape().len() && 0 <= i < self.shape()[c]
    }

    /// A row that exists has a bit.
    pub proof fn lemma_covers(self, cluster: int, row: int)
        requires
            self.wf(),
            0 <= cluster < self.shape().len(),
            0 <= row < self.shape()[cluster],
        ensures
            self.covers(cluster, row),
    {
        assert(self.rows@[cluster]@.len() == words_needed(self.row_counts@[cluster] as int));
    }

    /// A row that a mask has a bit for, another mask of the same shape has one for
    /// too.
    pub proof fn lemma_same_cover(self, other: VectorFilterMask, cluster: int, row: int)
        requires
            self.wf(),
            other.wf(),
            self.shape() == other.shape(),
        ensures
            self.covers(cluster, row) == other.covers(cluster, row),
    {
        if 0 <= cluster < self.rows@.len() {
            assert(self.rows@[cluster]@.len() == other.rows@[cluster]@.len());
        }
    }

    /// A bit that is set is a bit that the mask has.
    pub proof fn lemma_bit_covered(self, cluster: int, row: int)
        requires
            self.bit(cluster, row),
        ensures
            self.covers(cluster, row),
    {
    }

    /// Allows no row.
    pub fn empty(row_counts: Vec<usize>) -> (m: VectorFilterMask)
        ensures
            m.wf(),
            m.shape() == row_counts@,
            forall|c: int, i: int| !#[trigger] m.bit(c, i),
    {
        let mut rows: Vec<Vec<u64>> = Vec::new();
        let mut c: usize = 0;
        while c < row_counts.len()
            invariant
                c <= row_counts@.len(),
                rows@.len() == c,
                forall|j: int|
                    0 <= j < c ==> (#[trigger] rows@[j])@.len() == words_needed(
                        row_counts@[j] as int,
                    ),
                forall|j: int, i: int| 0 <= j < c ==> !#[trigger] bit_at(rows@[j]@, i),
            decreases row_counts@.len() - c,
        {
            rows.push(zero_words(words_for_rows(row_counts[c])));
            c = c + 1;
        }
        VectorFilterMask { row_counts, rows }
    }

    /// Allows every row.
    pub fn all(row_counts: Vec<usize>) -> (m: VectorFilterMask)
        ensures
            m.wf(),
            m.shape() == row_counts@,
            forall|c: int, i: int| #[trigger]
                m.bit(c, i) == (0 <= c < row_counts@.len() && 0 <= i < row_counts@[c]),
    {
        VectorFilterMask::empty(row_counts).not()
    }

    /// Whether the bit of a row is set in both masks. A row that `other` has no bit
    /// for keeps its bit.
    pub fn and(&self, other: &VectorFilterMask) -> (m: VectorFilterMask)
        requires
            self.wf(),
        ensures
            m.wf(),
            m.shape() == self.shape(),
            forall|c: int, i: int| #[trigger]
                m.bit(c, i) == (self.bit(c, i) && (other.covers(c, i) ==> other.bit(c, i))),
    {
        let mut rows: Vec<Vec<u64>> = Vec::new();
        let mut c: usize = 0;
        while c < self.rows.len()
            invariant
                c <= self.rows@.len(),
                rows@.len() == c,
                forall|j: int|
                    0 <= j < c ==> (#[trigger] rows@[j])@.len() == self.rows@[j]@.len(),
                forall|j: int, i: int|
                    0 <= j < c ==> #[trigger] bit_at(rows@[j]@, i) == (self.bit(j, i) && (
                    other.covers(j, i) ==> other.bit(j, i))),
            decreases self.rows@.len() - c,
        {
            let mut words = copy_words(&self.rows[c]);
            if c < other.rows.len() {
                intersect_words(&mut words, &other.rows[c]);
            }
            let ghost before = rows@;
            rows.push(words);
            assert forall|j: int, i: int| 0 <= j < c + 1 implies #[trigger] bit_at(rows@[j]@, i) == (
            self.bit(j, i) && (other.covers(j, i) ==> other.bit(j, i))) by {
                if j < c {
                    assert(rows@[j] == before[j]);
                    assert(bit_at(before[j]@, i) == (self.bit(j, i) && (other.covers(j, i)
                        ==> other.bit(j, i))));
                }
            }
            c = c + 1;
        }
        let m = VectorFilterMask { row_counts: copy_counts(&self.row_counts), rows };
        assert forall|c: int, i: int| #[trigger] m.bit(c, i) == (self.bit(c, i) && (other.covers(
            c,
            i,
        ) ==> other.bit(c, i))) by {
            if 0 <= c < m.rows@.len() {
                assert(bit_at(m.rows@[c]@, i) == m.bit(c, i));
            }
        }
        m
    }

    /// Whether the bit of a row is set in either mask. A row that this mask has no
    /// bit for stays out.
    pub fn or(&self, other: &VectorFilterMask) -> (m: VectorFilterMask)
        requires
            self.wf(),
        ensures
            m.wf(),
            m.shape() == self.shape(),
            forall|c: int, i: int| #[trigger]
                m.bit(c, i) == (self.bit(c, i) || (self.covers(c, i) && other.bit(c, i))),
    {
        let mut rows: Vec<Vec<u64>> = Vec::new();
        let mut c: usize = 0;
        while c < self.rows.len()
            invariant
                c <= self.rows@.len(),
                rows@.len() == c,
                forall|j: int|
                    0 <= j < c ==> (#[trigger] rows@[j])@.len() == self.rows@[j]@.len(),
                forall|j: int, i: int|
                    0 <= j < c ==> #[trigger] bit_at(rows@[j]@, i) == (self.bit(j, i) || (
                    self.covers(j, i) && other.bit(j, i))),
            decreases self.rows@.len() - c,
        {
            let mut words = copy_words(&self.rows[c]);
            if c < other.rows.len() {
                unite_words(&mut words, &other.rows[c]);
            }
            let ghost before = rows@;
            rows.push(words);
            assert forall|j: int, i: int| 0 <= j < c + 1 implies #[trigger] bit_at(rows@[j]@, i) == (
            self.bit(j, i) || (self.covers(j, i) && other.bit(j, i))) by {
                if j < c {
                    assert(rows@[j] == before[j]);
                    assert(bit_at(before[j]@, i) == (self.bit(j, i) || (self.covers(j, i)
                        && other.bit(j, i))));
                }
            }
            c = c + 1;
        }
        let m = VectorFilterMask { row_counts: copy_counts(&self.row_counts), rows };
        assert forall|c: int, i: int| #[trigger] m.bit(c, i) == (self.bit(c, i) || (self.covers(
            c,
            i,
        ) && other.bit(c, i))) by {
            if 0 <= c < m.rows@.len() {
                assert(bit_at(m.rows@[c]@, i) == m.bit(c, i));
            }
        }
        m
    }

    /// Allows the rows that this mask does not.
    pub fn not(&self) -> (m: VectorFilterMask)
        requires
            self.wf(),
        ensures
            m.wf(),
            m.shape() == self.shape(),
            forall|c: int, i: int| #[trigger]
                m.bit(c, i) == (0 <= c < self.shape().len() && 0 <= i < self.shape()[c]
                    && !self.bit(c, i)),
    {
        let mut rows: Vec<Vec<u64>> = Vec::new();
        let mut c: usize = 0;
        while c < self.rows.len()
            invariant
                c <= self.rows@.len(),
                self.wf(),
                rows@.len() == c,
                forall|j: int|
                    0 <= j < c ==> (#[trigger] rows@[j])@.len() == self.rows@[j]@.len(),
                forall|j: int, i: int|
                    0 <= j < c ==> #[trigger] bit_at(rows@[j]@, i) == (0 <= i < self.row_counts@[j]
                        && !self.bit(j, i)),
            decreases self.rows@.len() - c,
        {
            assert(self.rows@[c as int]@.len() == words_needed(self.row_counts@[c as int] as int));
            let words = inverted_words(&self.rows[c], self.row_counts[c]);
            let ghost before = rows@;
            rows.push(words);
            assert forall|j: int, i: int| 0 <= j < c + 1 implies #[trigger] bit_at(rows@[j]@, i) == (
            0 <= i < self.row_counts@[j] && !self.bit(j, i)) by {
                if j < c {
                    assert(rows@[j] == before[j]);
                    assert(bit_at(before[j]@, i) == (0 <= i < self.row_counts@[j] && !self.bit(
                        j,
                        i,
                    )));
                }
            }
            c = c + 1;
        }
        let m = VectorFilterMask { row_counts: copy_counts(&self.row_counts), rows };
        assert forall|c: int, i: int| #[trigger] m.bit(c, i) == (0 <= c < self.shape().len() && 0
            <= i < self.shape()[c] && !self.bit(c, i)) by {
            if 0 <= c < m.rows@.len() {
                assert(bit_at(m.rows@[c]@, i) == m.bit(c, i));
            }
        }
        m
    }

    /// Whether a bit of the cluster is set.
    pub fn cluster_has_any(&self, cluster_id: usize) -> (b: bool)
        ensures
            b == exists|i: int| #[trigger] self.bit(cluster_id as int, i),
    {
        if cluster_id < self.rows.len() {
            let b = any_bit(&self.rows[cluster_id]);
            proof {
                let words = self.rows@[cluster_id as int]@;
                if b {
                    let i = choose|i: int| #[trigger] bit_at(words, i);
                    assert(self.bit(cluster_id as int, i));
                } else {
                    assert forall|i: int| !#[trigger] self.bit(cluster_id as int, i) by {
                        assert(!bit_at(words, i));
                    }
                }
            }
            b
        } else {
            false
        }
    }

    /// Whether the mask allows a row.
    pub fn allows(&self, cluster_id: usize, local_id: usize) -> (b: bool)
        ensures
            b == self.allows_row(cluster_id as int, local_id as int),
    {
        if cluster_id >= self.row_counts.len() || local_id >= self.row_counts[cluster_id] {
            return false;
        }
        if cluster_id >= self.rows.len() {
            return false;
        }
        let word: usize = local_id / 64;
        let bit: u64 = (local_id % 64) as u64;
        if word >= self.rows[cluster_id].len() {
            return false;
        }
        proof {
            lemma_and_bit(self.rows@[cluster_id as int]@[word as int], bit);
        }
        (self.rows[cluster_id][word] & (1u64 << bit)) != 0
    }

    /// Sets the bits of a list of words in one cluster; a cluster that the mask does
    /// not have is passed over.
    pub fn unite_cluster(&mut self, cluster_id: usize, words: &Vec<u64>)
        requires
            old(self).wf(),
        ensures
            final(self).wf(),
            final(self).shape() == old(self).shape(),
            forall|c: int, i: int| #[trigger]
                final(self).bit(c, i) == (old(self).bit(c, i) || (c == cluster_id && old(
                    self,
                ).covers(c, i) && bit_at(words@, i))),
    {
        if cluster_id < self.rows.len() {
            let ghost before = self.rows@;
            unite_words(&mut self.rows[cluster_id], words);
            assert forall|c: int, i: int| #[trigger] self.bit(c, i) == (old(self).bit(c, i) || (c
                == cluster_id && old(self).covers(c, i) && bit_at(words@, i))) by {
                if 0 <= c < before.len() {
                    if c != cluster_id {
                        assert(self.rows@[c] == before[c]);
                    }
                }
            }
            assert forall|c: int| 0 <= c < self.rows@.len() implies (#[trigger] self.rows@[c])@.len()
                == words_needed(self.row_counts@[c] as int) by {
                assert(before[c]@.len() == words_needed(self.row_counts@[c] as int));
                if c != cluster_id {
                    assert(self.rows@[c] == before[c]);
                }
            }
        }
    }
}

fn copy_counts(counts: &Vec<usize>) -> (r: Vec<usize>)
    ensures
        r@ == counts@,
{
    let mut r: Vec<usize> = Vec::new();
    let mut i: usize = 0;
    while i < counts.len()
        invariant
            i <= counts@.len(),
            r@ == counts@.take(i as int),
        decreases counts@.len() - i,
    {
        r.push(counts[i]);
        i = i + 1;
        assert(r@ =~= counts@.take(i as int));
    }
    assert(r@ =~= counts@);
    r
}

/// Masks of one index are a Boolean algebra on its rows: a row is allowed by the
/// conjunction of two masks if both allow it, by their disjunction if one does,
/// and by the complement of a mask if the mask does not.
pub proof fn law_masks_are_row_sets(
    a: VectorFilterMask,
    b: VectorFilterMask,
    conjunction: VectorFilterMask,
    disjunction: VectorFilterMask,
    complement: VectorFilterMask,
    cluster: int,
    row: int,
)
    requires
        a.wf(),
        b.wf(),
        a.shape() == b.shape(),
        conjunction.shape() == a.shape(),
        forall|c: int, i: int| #[trigger]
            conjunction.bit(c, i) == (a.bit(c, i) && (b.covers(c, i) ==> b.bit(c, i))),
        disjunction.shape() == a.shape(),
        forall|c: int, i: int| #[trigger]
            disjunction.bit(c, i) == (a.bit(c, i) || (a.covers(c, i) && b.bit(c, i))),
        complement.shape() == a.shape(),
        forall|c: int, i: int| #[trigger]
            complement.bit(c, i) == (0 <= c < a.shape().len() && 0 <= i < a.shape()[c] && !a.bit(
                c,
                i,
            )),
        0 <= cluster < a.shape().len(),
        0 <= row < a.shape()[cluster],
    ensures
        conjunction.allows_row(cluster, row) == (a.allows_row(cluster, row) && b.allows_row(
            cluster,
            row,
        )),
        disjunction.allows_row(cluster, row) == (a.allows_row(cluster, row) || b.allows_row(
            cluster,
            row,
        )),
        complement.allows_row(cluster, row) == !a.allows_row(cluster, row),
        a.trimmed() ==> conjunction.trimmed(),
        a.trimmed() && b.trimmed() ==> disjunction.trimmed(),
        complement.trimmed(),
{
    a.lemma_covers(cluster, row);
    b.lemma_covers(cluster, row);
}

} // verus!
