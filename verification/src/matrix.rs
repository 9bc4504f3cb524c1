//! Row-wise top-k over a matrix of scores, serially or across rayon's pool.
use crate::error::VecNormError;
use crate::topk::{is_top_k, lemma_top_k_unique, top_k_holds, top_k_row};
use rayon::iter::{IntoParallelRefIterator, ParallelIterator};
use vstd::prelude::*;

verus! {

/// An `(n_rows, n_cols)` matrix of scores (binary32 bit patterns), held row
/// by row. Every row has exactly `n_cols` entries, also when there are no
/// rows at all.
pub struct ScoreMatrix {
    rows: Vec<Vec<u32>>,
    ncols: usize,
}

impl ScoreMatrix {
    #[verifier::type_invariant]
    spec fn rows_have_ncols(self) -> bool {
        forall|i: int| 0 <= i < self.rows@.len() ==> (#[trigger] self.rows@[i])@.len() == self.ncols
    }

    /// The rows, each as a sequence of scores.
    pub closed spec fn spec_rows(self) -> Seq<Seq<u32>> {
        self.rows@.map_values(|r: Vec<u32>| r@)
    }

    /// The number of columns.
    pub closed spec fn spec_ncols(self) -> nat {
        self.ncols as nat
    }

    /// Builds a matrix from its rows; `None` when a row's length is not
    /// `ncols`.
    pub fn new(ncols: usize, rows: Vec<Vec<u32>>) -> (m: Option<ScoreMatrix>)
        ensures
            m is Some <==> forall|i: int| 0 <= i < rows@.len() ==> (#[trigger] rows@[i])@.len() == ncols,
            m matches Some(m) ==> m.spec_ncols() == ncols && m.spec_rows() == rows@.map_values(
                |r: Vec<u32>| r@,
            ),
    {
        let mut i: usize = 0;
        while i < rows.len()
            invariant
                i <= rows@.len(),
                forall|j: int| 0 <= j < i ==> (#[trigger] rows@[j])@.len() == ncols,
            decreases rows@.len() - i,
        {
            if rows[i].len() != ncols {
                return None;
            }
            i = i + 1;
        }
        Some(ScoreMatrix { rows, ncols })
    }

    /// The number of rows.
    pub fn nrows(&self) -> (n: usize)
        ensures
            n == self.spec_rows().len(),
    {
        self.rows.len()
    }

    /// The number of columns.
    pub fn ncols(&self) -> (n: usize)
        ensures
            n == self.spec_ncols(),
    {
        self.ncols
    }
}

/// Runs `top_k_row` on every row across rayon's thread pool.
///
/// Trusted only to return: rayon's `par_iter().map(f).collect::<Vec<_>>()`
/// on a `Vec`, with `f` the verified `top_k_row`, whose `requires` the
/// `requires` here establishes for every row. Nothing is claimed of the
/// result: the caller checks every row of it before using it.
#[verifier::external_body]
fn par_top_k_rows(rows: &Vec<Vec<u32>>, k: usize) -> (res: Vec<Vec<(usize, u32)>>)
    requires
        0 < k,
        forall|i: int| 0 <= i < rows@.len() ==> k <= (#[trigger] rows@[i])@.len(),
{
    rows.par_iter().map(|row| top_k_row(row, k)).collect()
}

/// Top-k argmax of every row of an `(n_rows, n_cols)` score matrix. With
/// `parallel` the rows are spread over rayon's pool; the result does not
/// depend on it. `k = 0` is refused with `KZero`, `k` above the number of
/// columns with `KTooLarge`.
pub fn batch_top_k_argmax(scores: &ScoreMatrix, k: usize, parallel: bool) -> (res: Result<
    Vec<Vec<(usize, u32)>>,
    VecNormError,
>)
    ensures
        k == 0 ==> res == Err::<Vec<Vec<(usize, u32)>>, VecNormError>(VecNormError::KZero),
        k > 0 && k > scores.spec_ncols() ==> res == Err::<Vec<Vec<(usize, u32)>>, VecNormError>(
            VecNormError::KTooLarge { k: k, len: scores.spec_ncols() as usize },
        ),
        0 < k <= scores.spec_ncols() ==> (res matches Ok(r) && r@.len() == scores.spec_rows().len()
            && forall|i: int|
            0 <= i < r@.len() ==> is_top_k(scores.spec_rows()[i], k as int, (#[trigger] r@[i])@)),
{
    proof {
        use_type_invariant(scores);
    }
    if k == 0 {
        return Err(VecNormError::KZero);
    }
    if k > scores.ncols {
        return Err(VecNormError::KTooLarge { k, len: scores.ncols });
    }
    let rows = &scores.rows;
    assert(forall|i: int| 0 <= i < rows@.len() ==> scores.spec_rows()[i] == (#[trigger] rows@[i])@);
    if parallel {
        let cand = par_top_k_rows(rows, k);
        if cand.len() == rows.len() {
            let mut all_hold = true;
            let mut i: usize = 0;
            while i < rows.len()
                invariant
                    i <= rows@.len(),
                    cand@.len() == rows@.len(),
                    0 < k,
                    all_hold ==> forall|j: int| 0 <= j < i ==> is_top_k(rows@[j]@, k as int, (#[trigger] cand@[j])@),
                decreases rows@.len() - i,
            {
                if !top_k_holds(&rows[i], k, &cand[i]) {
                    all_hold = false;
                }
                i = i + 1;
            }
            if all_hold {
                return Ok(cand);
            }
        }
    }
    {
        let mut out: Vec<Vec<(usize, u32)>> = Vec::new();
        let mut i: usize = 0;
        while i < rows.len()
            invariant
                i <= rows@.len(),
                0 < k <= scores.ncols,
                forall|j: int| 0 <= j < rows@.len() ==> (#[trigger] rows@[j])@.len() == scores.ncols,
                out@.len() == i,
                forall|j: int| 0 <= j < i ==> is_top_k(rows@[j]@, k as int, (#[trigger] out@[j])@),
            decreases rows@.len() - i,
        {
            let r = top_k_row(&rows[i], k);
            out.push(r);
            i = i + 1;
        }
        Ok(out)
    }
}

/// Two row-wise top-`k` results of the same matrix agree row by row: the
/// batched result is the same whether it was computed serially or in
/// parallel.
pub proof fn lemma_batch_unique(
    m: ScoreMatrix,
    k: int,
    r1: Seq<Seq<(usize, u32)>>,
    r2: Seq<Seq<(usize, u32)>>,
)
    requires
        r1.len() == m.spec_rows().len(),
        r2.len() == m.spec_rows().len(),
        forall|i: int| 0 <= i < r1.len() ==> is_top_k(m.spec_rows()[i], k, #[trigger] r1[i]),
        forall|i: int| 0 <= i < r2.len() ==> is_top_k(m.spec_rows()[i], k, #[trigger] r2[i]),
    ensures
        r1 == r2,
{
    assert forall|i: int| 0 <= i < r1.len() implies r1[i] == r2[i] by {
        lemma_top_k_unique(m.spec_rows()[i], k, r1[i], r2[i]);
    }
    assert(r1 =~= r2);
}

} // verus!
