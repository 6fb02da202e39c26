//! The capabilities of a transposer: a block size, an encrypt permutation of
//! that size, its inverse, and whole-block application of either.

use vstd::prelude::*;
use crate::datastructs::Bit;
use crate::permutation::{apply_perm, is_perm, move_by_indices};

verus! {

/// Something that works on blocks of a fixed size.
pub trait Blocky {
    spec fn block_size_spec(&self) -> nat;

    fn get_block_size(&self) -> (r: usize)
        ensures
            r as nat == self.block_size_spec(),
    ;
}

/// A transposer: derives the index permutation that encryption applies to a block.
pub trait IndexEncrypt: Blocky {
    spec fn encrypt_indices_spec(&self) -> Seq<usize>;

    fn encrypt_indices(&self) -> (r: Vec<usize>)
        ensures
            r@ == self.encrypt_indices_spec(),
            r@.len() == self.block_size_spec(),
            is_perm(r@),
    ;
}

/// Encrypts one block by its encrypt permutation.
pub trait BlockEncrypt: IndexEncrypt {
    fn encrypt_block<T: Copy>(&self, data: Vec<T>) -> (r: Vec<T>)
        requires
            data@.len() == self.block_size_spec(),
        ensures
            r@ == apply_perm(self.encrypt_indices_spec(), data@),
    {
        let indices = self.encrypt_indices();
        move_by_indices(data, indices.as_slice())
    }
}

/// Derives the index permutation that decryption applies to a block.
pub trait IndexDecrypt: Blocky {
    spec fn decrypt_indices_spec(&self) -> Seq<usize>;

    fn decrypt_indices(&self) -> (r: Vec<usize>)
        ensures
            r@ == self.decrypt_indices_spec(),
            r@.len() == self.block_size_spec(),
            is_perm(r@),
    ;
}

/// Decrypts one block by its decrypt permutation.
pub trait BlockDecrypt: IndexDecrypt {
    fn decrypt_block<T: Copy>(&self, data: Vec<T>) -> (r: Vec<T>)
        requires
            data@.len() == self.block_size_spec(),
        ensures
            r@ == apply_perm(self.decrypt_indices_spec(), data@),
    {
        let indices = self.decrypt_indices();
        move_by_indices(data, indices.as_slice())
    }
}

/// The fill symbol that the padding regime appends to a short final block.
pub trait ProvidesPad: Sized {
    spec fn pad_spec() -> Self;

    fn get_pad_value() -> (r: Self)
        ensures
            r == Self::pad_spec(),
    ;
}

impl ProvidesPad for u8 {
    open spec fn pad_spec() -> u8 {
        0
    }

    fn get_pad_value() -> (r: u8) {
        0
    }
}

impl ProvidesPad for usize {
    open spec fn pad_spec() -> usize {
        0
    }

    fn get_pad_value() -> (r: usize) {
        0
    }
}

impl ProvidesPad for char {
    open spec fn pad_spec() -> char {
        '\0'
    }

    fn get_pad_value() -> (r: char) {
        '\0'
    }
}

impl ProvidesPad for Bit {
    open spec fn pad_spec() -> Bit {
        Bit(false)
    }

    fn get_pad_value() -> (r: Bit) {
        Bit(false)
    }
}

} // verus!
