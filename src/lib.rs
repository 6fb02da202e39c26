//! Transposition ciphers: index permutations, block layers, stacked recipes,
//! their textual form and a keystore of named recipes.
//!
//! - `permutation`: validated index permutations, their inverse and application.
//! - `cyphers`: the transposer capabilities (block size, encrypt and decrypt indices).
//! - `rail_fence`, `vertical`: the rail-fence and columnar transposers.
//! - `block`: how a block permutation acts on inputs of any length, with
//!   padding or with the length kept.
//! - `decode`: a transposer paired with its decryption and both regimes.
//! - `datastructs`: the bit, scalar and group symbol domains.
//! - `stacked`: layers and recipes, encryption and decryption.
//! - `laws`: round trip, empty input, determinism, length laws.
//! - `encryption`: a recipe paired with the kind of payload it takes.
//! - `serialization`: the wire form of recipes.
//! - `database`: the keystore and its text form.
//! - `payload`: the encrypted payload file.
//! - `generation`: random transposers.
//! - `error`: failure kinds.

pub mod block;
pub mod cyphers;
pub mod database;
pub mod datastructs;
pub mod decode;
pub mod encryption;
pub mod error;
pub mod generation;
pub mod laws;
pub mod payload;
pub mod permutation;
pub mod rail_fence;
pub mod serialization;
pub mod stacked;
pub mod vertical;
