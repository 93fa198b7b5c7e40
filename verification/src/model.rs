//! The distance model shared, read-only, by every solver.

use vstd::prelude::*;

verus! {

/// A problem instance: `n` elements, a target selection size `k`, and the
/// dense `n` by `n` distance matrix stored row by row.
pub struct MdpData {
    pub n: usize,
    pub k: usize,
    pub distances: Vec<u64>,
}

/// Why a distance model could not be built.
#[derive(Debug, PartialEq, Eq, Clone, Copy)]
pub enum ModelError {
    /// `k` is zero or exceeds `n`.
    InvalidSelectionSize,
    /// `n * n` does not fit in `usize`.
    TooLarge,
    /// The matrix does not have `n * n` entries.
    WrongLength,
    /// Some `distance[i][j]` differs from `distance[j][i]`.
    NotSymmetric,
    /// An entry names an element outside `[0, n)`.
    EntryOutOfRange,
}

/// Why a solver refused to run.
#[derive(Debug, PartialEq, Eq, Clone, Copy)]
pub enum SolveError {
    /// `k` is zero or exceeds `n`.
    InvalidSelectionSize,
    /// A probability or threshold is not a fraction between 0 and 1.
    InvalidRatio,
    /// No restart was asked for, so there is no solution to return.
    NoRestarts,
    /// The population is empty, or smaller than its elite.
    InvalidPopulation,
    /// A construction ran out of candidates before `k` were chosen.
    PoolExhausted,
    /// The system could not supply a seed for the random generator.
    NoEntropy,
}

impl MdpData {
    /// The distance between elements `i` and `j`.
    pub open spec fn dist(&self, i: int, j: int) -> int {
        self.distances@[i * (self.n as int) + j] as int
    }

    /// The matrix has `n * n` entries and is symmetric.
    pub open spec fn wf(&self) -> bool {
        &&& self.distances.len() == self.n * self.n
        &&& forall|i: int, j: int|
            0 <= i < self.n && 0 <= j < self.n ==> #[trigger] self.dist(i, j) == self.dist(j, i)
    }

    /// The selection size is one that a solver accepts: `1 <= k <= n`.
    pub open spec fn feasible(&self) -> bool {
        1 <= self.k <= self.n
    }

    /// A row-major index of a valid pair lies inside the matrix.
    pub proof fn lemma_index_in_bounds(&self, i: int, j: int)
        requires
            self.distances.len() == self.n * self.n,
            0 <= i < self.n,
            0 <= j < self.n,
        ensures
            0 <= i * (self.n as int) + j < self.n * self.n,
            0 <= i * (self.n as int) <= usize::MAX,
    {
        let n = self.n as int;
        assert(0 <= i * n && i * n + n <= n * n) by (nonlinear_arith)
            requires
                0 <= i < n,
        ;
    }

    /// Refuses a selection size that is zero or exceeds `n`.
    pub fn check_feasible(&self) -> (checked: Result<(), SolveError>)
        ensures
            checked is Ok <==> self.feasible(),
            checked matches Err(e) ==> e is InvalidSelectionSize,
    {
        if self.k == 0 || self.k > self.n {
            Err(SolveError::InvalidSelectionSize)
        } else {
            Ok(())
        }
    }

    /// The distance between elements `i` and `j`.
    pub fn get_dist(&self, i: usize, j: usize) -> (d: u64)
        requires
            self.wf(),
            i < self.n,
            j < self.n,
        ensures
            d as int == self.dist(i as int, j as int),
    {
        proof {
            self.lemma_index_in_bounds(i as int, j as int);
        }
        self.distances[i * self.n + j]
    }
}

/// The distance that a list of entries `(i, j, d)` gives to the pair
/// `(i, j)`: that of the last entry that names the pair, in either order,
/// and zero when none does.
pub open spec fn entry_value(entries: Seq<(usize, usize, u64)>, i: int, j: int) -> int
    decreases entries.len(),
{
    if entries.len() == 0 {
        0
    } else {
        let last = entries.last();
        if (last.0 == i && last.1 == j) || (last.0 == j && last.1 == i) {
            last.2 as int
        } else {
            entry_value(entries.drop_last(), i, j)
        }
    }
}

/// Every entry names two elements below `n`.
pub open spec fn entries_in_range(entries: Seq<(usize, usize, u64)>, n: usize) -> bool {
    forall|t: int| 0 <= t < entries.len() ==> (#[trigger] entries[t]).0 < n && entries[t].1 < n
}

impl MdpData {
    /// Whether the matrix has `n * n` entries and is symmetric.
    pub fn is_valid(&self) -> (valid: bool)
        ensures
            valid == self.wf(),
    {
        let n = self.n;
        match n.checked_mul(n) {
            None => {
                return false;
            },
            Some(size) => {
                if self.distances.len() != size {
                    return false;
                }
            },
        }
        let mut i: usize = 0;
        while i < n
            invariant
                n == self.n,
                self.distances.len() == n * n,
                i <= n,
                forall|a: int, b: int|
                    0 <= a < i && 0 <= b < n ==> #[trigger] self.dist(a, b) == self.dist(b, a),
            decreases n - i,
        {
            let mut j: usize = 0;
            while j < n
                invariant
                    n == self.n,
                    self.distances.len() == n * n,
                    i < n,
                    j <= n,
                    forall|a: int, b: int|
                        0 <= a < i && 0 <= b < n ==> #[trigger] self.dist(a, b) == self.dist(b, a),
                    forall|b: int|
                        0 <= b < j ==> #[trigger] self.dist(i as int, b) == self.dist(b, i as int),
                decreases n - j,
            {
                proof {
                    self.lemma_index_in_bounds(i as int, j as int);
                    self.lemma_index_in_bounds(j as int, i as int);
                }
                if self.distances[i * n + j] != self.distances[j * n + i] {
                    proof {
                        assert(self.dist(i as int, j as int) != self.dist(j as int, i as int));
                    }
                    return false;
                }
                j = j + 1;
            }
            i = i + 1;
        }
        true
    }

    /// Builds a model from a full matrix stored row by row. Refuses, in
    /// this order, a `k` that is zero or exceeds `n`, an `n` whose square
    /// does not fit in `usize`, a matrix of the wrong length, and a matrix
    /// that is not symmetric.
    pub fn new(n: usize, k: usize, distances: Vec<u64>) -> (res: Result<MdpData, ModelError>)
        ensures
            res matches Ok(data) ==> data.wf() && data.feasible() && data.n == n && data.k == k
                && data.distances@ == distances@,
            res matches Err(e) ==> if k == 0 || k > n {
                e is InvalidSelectionSize
            } else if n * n > usize::MAX {
                e is TooLarge
            } else if distances@.len() != n * n {
                e is WrongLength
            } else {
                e is NotSymmetric
            },
            res is Err <==> (k == 0 || k > n || !(MdpData { n, k, distances }).wf()),
    {
        if k == 0 || k > n {
            return Err(ModelError::InvalidSelectionSize);
        }
        match n.checked_mul(n) {
            None => {
                return Err(ModelError::TooLarge);
            },
            Some(size) => {
                if distances.len() != size {
                    return Err(ModelError::WrongLength);
                }
            },
        }
        let data = MdpData { n, k, distances };
        if data.is_valid() {
            Ok(data)
        } else {
            Err(ModelError::NotSymmetric)
        }
    }

    /// Builds a model from a list of entries `(i, j, d)`. Each entry sets
    /// the distance of its pair in both directions; pairs that no entry
    /// names are at distance zero, and of two entries for one pair the
    /// later counts. Refuses, in this order, a `k` that is zero or exceeds
    /// `n`, an `n` whose square does not fit in `usize`, and an entry that
    /// names an element outside the instance.
    pub fn from_entries(n: usize, k: usize, entries: &Vec<(usize, usize, u64)>) -> (res: Result<
        MdpData,
        ModelError,
    >)
        ensures
            res is Err <==> (k == 0 || k > n || n * n > usize::MAX || !entries_in_range(
                entries@,
                n,
            )),
            res matches Err(e) ==> if k == 0 || k > n {
                e is InvalidSelectionSize
            } else if n * n > usize::MAX {
                e is TooLarge
            } else {
                e is EntryOutOfRange
            },
            res matches Ok(data) ==> {
                &&& data.wf()
                &&& data.feasible()
                &&& data.n == n
                &&& data.k == k
                &&& forall|i: int, j: int|
                    0 <= i < n && 0 <= j < n ==> #[trigger] data.dist(i, j) == entry_value(
                        entries@,
                        i,
                        j,
                    )
            },
    {
        if k == 0 || k > n {
            return Err(ModelError::InvalidSelectionSize);
        }
        let size = match n.checked_mul(n) {
            None => {
                return Err(ModelError::TooLarge);
            },
            Some(size) => size,
        };
        let mut data = MdpData { n, k, distances: vec![0u64; size] };
        let mut t: usize = 0;
        proof {
            assert(entries@.take(0) =~= Seq::<(usize, usize, u64)>::empty());
            assert forall|i: int, j: int| 0 <= i < n && 0 <= j < n implies #[trigger] data.dist(
                i,
                j,
            ) == 0 by {
                data.lemma_index_in_bounds(i, j);
            }
        }
        while t < entries.len()
            invariant
                t <= entries@.len(),
                1 <= k <= n,
                data.n == n,
                data.k == k,
                data.distances.len() == n * n,
                entries_in_range(entries@.take(t as int), n),
                forall|i: int, j: int|
                    0 <= i < n && 0 <= j < n ==> #[trigger] data.dist(i, j) == entry_value(
                        entries@.take(t as int),
                        i,
                        j,
                    ),
            decreases entries@.len() - t,
        {
            let (i, j, d) = entries[t];
            if i >= n || j >= n {
                proof {
                    assert(entries@[t as int].0 >= n || entries@[t as int].1 >= n);
                }
                return Err(ModelError::EntryOutOfRange);
            }
            let ghost before = data;
            proof {
                data.lemma_index_in_bounds(i as int, j as int);
                data.lemma_index_in_bounds(j as int, i as int);
            }
            data.distances[i * n + j] = d;
            data.distances[j * n + i] = d;
            proof {
                let now = entries@.take(t + 1);
                assert(now.drop_last() =~= entries@.take(t as int));
                assert(now.last() == (i, j, d));
                assert forall|a: int, b: int| 0 <= a < n && 0 <= b < n implies #[trigger] data.dist(
                    a,
                    b,
                ) == entry_value(now, a, b) by {
                    lemma_row_major_injective(n as int, a, b, i as int, j as int);
                    lemma_row_major_injective(n as int, a, b, j as int, i as int);
                    before.lemma_index_in_bounds(a, b);
                    assert(before.dist(a, b) == entry_value(entries@.take(t as int), a, b));
                    assert(data.distances@ == before.distances@.update(i * n + j, d).update(
                        j * n + i,
                        d,
                    ));
                }
                assert forall|u: int| 0 <= u < now.len() implies (#[trigger] now[u]).0 < n
                    && now[u].1 < n by {
                    if u < t {
                        assert(now[u] == entries@.take(t as int)[u]);
                    }
                }
            }
            t = t + 1;
        }
        proof {
            assert(entries@.take(t as int) =~= entries@);
            assert forall|i: int, j: int| 0 <= i < n && 0 <= j < n implies #[trigger] data.dist(
                i,
                j,
            ) == data.dist(j, i) by {
                lemma_entry_value_symmetric_at(entries@, i, j);
            }
        }
        Ok(data)
    }
}

/// Two pairs below `n` with the same row-major index are the same pair.
pub proof fn lemma_row_major_injective(n: int, a: int, b: int, i: int, j: int)
    requires
        0 <= a < n,
        0 <= b < n,
        0 <= i < n,
        0 <= j < n,
    ensures
        a * n + b == i * n + j <==> (a == i && b == j),
{
    if a * n + b == i * n + j && a != i {
        assert(false) by (nonlinear_arith)
            requires
                a * n + b == i * n + j,
                a != i,
                0 <= b < n,
                0 <= j < n,
        ;
    }
}

/// The value that entries give to a pair does not depend on its order.
pub proof fn lemma_entry_value_symmetric_at(entries: Seq<(usize, usize, u64)>, i: int, j: int)
    ensures
        entry_value(entries, i, j) == entry_value(entries, j, i),
    decreases entries.len(),
{
    if entries.len() > 0 {
        lemma_entry_value_symmetric_at(entries.drop_last(), i, j);
    }
}

} // verus!
