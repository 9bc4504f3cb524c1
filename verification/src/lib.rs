//! Bulk vector operations on `f32` scores: single argmax, partial-heap
//! top-k selection and its batched, optionally parallel form, together with
//! the dimension checks shared by the vector kernels.
//!
//! Scores are carried as IEEE-754 binary32 bit patterns (`u32`, as given by
//! `f32::to_bits`), so that every comparison the selection logic makes is an
//! integer comparison that Verus can reason about. The ordering used is the
//! one described in [`score`]: numeric order, `-0.0 == 0.0`, and NaN below
//! every other value.

mod error;
mod heap;
mod matrix;
mod score;
mod topk;

pub use error::{check_matching_dim, VecNormError};

pub use matrix::{batch_top_k_argmax, lemma_batch_unique, ScoreMatrix};
pub use score::{
    argmax, is_argmax, lemma_argmax_holds_largest, lemma_key_decreases_on_negative,
    lemma_key_increases_on_positive, lemma_key_injective, lemma_key_nan_lowest, lemma_key_signs,
    lemma_nan_is_ieee_nan, ord_float_cmp, score_gt, score_key, spec_is_nan, spec_key,
    spec_score_gt, NAN_KEY,
};
pub use topk::{
    entry_of, is_top_k, lemma_argmax_is_top_one, lemma_top_k_full_length, lemma_top_k_holds_largest, lemma_top_k_prefix, lemma_top_k_unique,
    top_k_argmax,
};
pub use heap::ranks_above;
