//! The ways an operation of this library can fail.

use vstd::prelude::*;

verus! {

/// Failure kinds of the permutation algebra, the block layer, the symbol
/// adapters, recipes, their textual form and the keystore.
#[derive(Copy, Clone, Debug, PartialEq, Eq)]
pub enum CipherError {
    /// Indices are not a bijection on `0..n`.
    InvalidPermutation,
    /// Rows, columns or group size violate their constraints.
    InvalidConfig,
    /// A padded ciphertext whose length is not a multiple of the block size.
    MalformedCiphertext,
    /// Bytes that are not valid UTF-8 where scalars are expected.
    EncodingError,
    /// A scalar count that is not a multiple of the group size.
    MalformedInput,
    /// A size-token list whose length differs from the number of layers.
    TokenMismatch,
    /// An unknown tag, a bad number or an invalid transposer in a recipe text.
    MalformedRecipe,
    /// A keystore line without `:` or with an invalid recipe.
    MalformedEntry,
    /// A layer whose padded symbol count does not fit in memory indices.
    LengthOverflow,
}

} // verus!
