//! A transposer paired with its decryption, and the padding and unpadding
//! regimes that carry it over inputs of any length.

use vstd::prelude::*;
use crate::block::{
    gather_by_map, lemma_layout, lemma_regimes_as_maps, lemma_unpad_round_trip, pad_decrypt, pad_encrypt,
    pad_layout, pad_restore, padded_len, unpad_decrypt, unpad_encrypt, unpad_layout, unpad_restore,
};
use crate::cyphers::{BlockDecrypt, BlockEncrypt, Blocky, IndexDecrypt, IndexEncrypt, ProvidesPad};
use crate::error::CipherError;
use crate::permutation::{invert, is_perm, lemma_inverse, perm_inverse};

verus! {

/// Wraps a transposer whose encrypt indices form a valid permutation and
/// derives the decrypt permutation as their inverse.
#[derive(Debug, PartialEq, Eq)]
pub struct PermutationBlockDecoder<E: IndexEncrypt> {
    pub(crate) forward: E,
}

impl<E: IndexEncrypt> PermutationBlockDecoder<E> {
    /// The wrapped transposer.
    pub closed spec fn inner_spec(&self) -> E {
        self.forward
    }

    /// The encrypt permutation of a block.
    pub open spec fn perm(&self) -> Seq<usize> {
        self.inner_spec().encrypt_indices_spec()
    }

    #[verifier::type_invariant]
    pub open spec fn wf(&self) -> bool {
        &&& is_perm(self.perm())
        &&& self.perm().len() == self.inner_spec().block_size_spec()
    }

    pub fn new(encoder: E) -> (r: Self)
        ensures
            r.inner_spec() == encoder,
    {
        let indices = encoder.encrypt_indices();
        PermutationBlockDecoder { forward: encoder }
    }

    pub fn get_inner(&self) -> (r: &E)
        ensures
            *r == self.inner_spec(),
    {
        &self.forward
    }

    /// The encrypt permutation and its inverse.
    pub(crate) fn perm_pair(&self) -> (r: (Vec<usize>, Vec<usize>))
        ensures
            r.0@ == self.perm(),
            r.1@ == perm_inverse(self.perm()),
            is_perm(r.0@),
            is_perm(r.1@),
    {
        proof {
            use_type_invariant(self);
            lemma_inverse(self.perm());
        }
        let forward = self.forward.encrypt_indices();
        let backward = invert(forward.as_slice());
        (forward, backward)
    }

    /// Padded encryption: appends fill symbols up to a whole number of
    /// blocks, permutes every block, and returns the input length with it.
    pub fn encrypt_with_pad<T: Copy + ProvidesPad>(&self, data: &[T]) -> (r: (usize, Vec<T>))
        requires
            padded_len(data@.len() as int, self.perm().len() as int) <= usize::MAX,
        ensures
            r.0 == data@.len(),
            r.1@ == pad_encrypt(self.perm(), data@, T::pad_spec()),
            r.1@.len() == padded_len(data@.len() as int, self.perm().len() as int),
            r.1@.len() == ((data@.len() + self.perm().len() - 1) / (self.perm().len() as int)) * self.perm().len(),
    {
        proof {
            use_type_invariant(self);
            crate::laws::lemma_block_length_laws(self.perm(), data@, T::pad_spec());
            lemma_regimes_as_maps(self.perm(), data@, data@, 0, T::pad_spec());
            lemma_layout(self.perm(), data@.len() as int);
        }
        let (forward, backward) = self.perm_pair();
        let map = pad_layout(forward.as_slice(), backward.as_slice(), data.len());
        let fill = T::get_pad_value();
        (data.len(), gather_by_map(data, map.as_slice(), fill))
    }

    /// Padded decryption: undoes every block and keeps the first
    /// `original_size` symbols; fails when the input is not made of whole blocks.
    pub fn decrypt_with_pad<T: Copy + ProvidesPad>(&self, data: &[T], original_size: usize) -> (r: Result<Vec<T>, CipherError>)
        ensures
            r is Err <==> (data@.len() as int) % (self.perm().len() as int) != 0,
            r is Err ==> r == Err::<Vec<T>, CipherError>(CipherError::MalformedCiphertext),
            r matches Ok(v) ==> v@ == pad_decrypt(self.perm(), data@, original_size as int),
    {
        proof {
            use_type_invariant(self);
        }
        let (forward, backward) = self.perm_pair();
        let b = forward.len();
        if data.len() % b != 0 {
            return Err(CipherError::MalformedCiphertext);
        }
        proof {
            lemma_regimes_as_maps(self.perm(), data@, data@, original_size as int, T::pad_spec());
        }
        let map = pad_restore(forward.as_slice(), data.len(), original_size);
        let fill = T::get_pad_value();
        Ok(gather_by_map(data, map.as_slice(), fill))
    }

    /// Unpadded encryption: the length is kept; the real symbols come out in
    /// the order of the padded layout, with its holes skipped.
    pub fn encrypt_unpad<T: Copy + ProvidesPad>(&self, data: &[T]) -> (r: Vec<T>)
        requires
            padded_len(data@.len() as int, self.perm().len() as int) <= usize::MAX,
        ensures
            r@ == unpad_encrypt(self.perm(), data@),
            r@.len() == data@.len(),
            r@.to_multiset() == data@.to_multiset(),
    {
        proof {
            use_type_invariant(self);
            crate::laws::lemma_block_length_laws(self.perm(), data@, T::pad_spec());
            lemma_regimes_as_maps(self.perm(), data@, data@, 0, T::pad_spec());
            lemma_unpad_round_trip(self.perm(), data@);
        }
        let (forward, backward) = self.perm_pair();
        let map = unpad_layout(forward.as_slice(), backward.as_slice(), data.len());
        let fill = T::get_pad_value();
        gather_by_map(data, map.as_slice(), fill)
    }

    /// Unpadded decryption: inverse of `encrypt_unpad`.
    pub fn decrypt_unpad<T: Copy + ProvidesPad>(&self, data: &[T]) -> (r: Vec<T>)
        requires
            padded_len(data@.len() as int, self.perm().len() as int) <= usize::MAX,
        ensures
            r@ == unpad_decrypt(self.perm(), data@),
            r@.len() == data@.len(),
    {
        proof {
            use_type_invariant(self);
            lemma_regimes_as_maps(self.perm(), data@, data@, 0, T::pad_spec());
        }
        let (forward, backward) = self.perm_pair();
        let map = unpad_restore(forward.as_slice(), backward.as_slice(), data.len());
        let fill = T::get_pad_value();
        gather_by_map(data, map.as_slice(), fill)
    }
}

impl<E: IndexEncrypt> Blocky for PermutationBlockDecoder<E> {
    open spec fn block_size_spec(&self) -> nat {
        self.perm().len()
    }

    fn get_block_size(&self) -> (r: usize) {
        proof {
            use_type_invariant(self);
        }
        self.forward.get_block_size()
    }
}

impl<E: IndexEncrypt> IndexEncrypt for PermutationBlockDecoder<E> {
    open spec fn encrypt_indices_spec(&self) -> Seq<usize> {
        self.perm()
    }

    fn encrypt_indices(&self) -> (r: Vec<usize>) {
        self.forward.encrypt_indices()
    }
}

impl<E: IndexEncrypt> BlockEncrypt for PermutationBlockDecoder<E> {}

impl<E: IndexEncrypt> IndexDecrypt for PermutationBlockDecoder<E> {
    open spec fn decrypt_indices_spec(&self) -> Seq<usize> {
        perm_inverse(self.perm())
    }

    fn decrypt_indices(&self) -> (r: Vec<usize>) {
        let (forward, backward) = self.perm_pair();
        backward
    }
}

impl<E: IndexEncrypt> BlockDecrypt for PermutationBlockDecoder<E> {}

} // verus!
