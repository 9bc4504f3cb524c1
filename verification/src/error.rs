use vstd::prelude::*;

verus! {

/// All errors surfaced by the library.
#[derive(Debug)]
pub enum VecNormError {
    /// Two arrays had incompatible shapes; both shapes are reported.
    DimensionMismatch { a: Vec<usize>, b: Vec<usize> },
    /// The caller asked for more elements than the input has.
    KTooLarge { k: usize, len: usize },
    /// The caller passed `k = 0` (also reported for an empty argmax input).
    KZero,
}

/// The shape check shared by the dot product, the cosine similarity and the
/// cosine distance matrix: the compared dimensions must agree, and when they
/// do not, the error carries the full shapes of both inputs.
pub fn check_matching_dim(dim_a: usize, dim_b: usize, shape_a: Vec<usize>, shape_b: Vec<usize>) -> (res:
    Result<(), VecNormError>)
    ensures
        dim_a == dim_b ==> res is Ok,
        dim_a != dim_b ==> res == Err::<(), VecNormError>(
            VecNormError::DimensionMismatch { a: shape_a, b: shape_b },
        ),
{
    if dim_a != dim_b {
        return Err(VecNormError::DimensionMismatch { a: shape_a, b: shape_b });
    }
    Ok(())
}

} // verus!
