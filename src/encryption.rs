//! A recipe paired with the kind of payload it is used on: raw bytes for
//! the bit and byte styles, text for the scalar and group styles.

use vstd::prelude::*;
use vstd::utf8::{decode_utf8, encode_utf8, valid_utf8};
use crate::datastructs::string_of_chars;
use crate::error::CipherError;
use crate::stacked::{EncryptionStyle, LayerModel, StackedCypher, recipe_decrypt, recipe_encrypt};

verus! {

/// Whether a style names a text payload.
pub open spec fn is_text_style(style: EncryptionStyle) -> bool {
    style == EncryptionStyle::Char || style is Group
}

/// A recipe and the style of payload it takes.
#[derive(Debug, PartialEq, Eq)]
pub struct Encryption {
    pub(crate) algorithm: StackedCypher,
    pub(crate) style: EncryptionStyle,
}

impl View for Encryption {
    /// (the recipe's layers, the payload style)
    type V = (Seq<LayerModel>, EncryptionStyle);

    closed spec fn view(&self) -> (Seq<LayerModel>, EncryptionStyle) {
        (self.algorithm@, self.style)
    }
}

impl Encryption {
    pub fn new(algorithm: StackedCypher, style: EncryptionStyle) -> (r: Self)
        ensures
            r@ == (algorithm@, style),
    {
        Encryption { algorithm, style }
    }

    pub fn get_style(&self) -> (r: EncryptionStyle)
        ensures
            r == self@.1,
    {
        self.style
    }

    pub fn get_algorithm(&self) -> (r: &StackedCypher)
        ensures
            r@ == self@.0,
    {
        &self.algorithm
    }

    /// Text payloads go with the scalar and group styles.
    pub fn accepts_characters(&self) -> (r: bool)
        ensures
            r == is_text_style(self@.1),
    {
        match self.style {
            EncryptionStyle::Char | EncryptionStyle::Group(_) => true,
            _ => false,
        }
    }

    /// Encrypts a text payload and reads the ciphertext as text; raw styles
    /// refuse it with `InvalidConfig`, and a ciphertext that is not UTF-8
    /// gives `EncodingError`.
    pub fn encrypt_text(&self, data: &str) -> (r: Result<(Vec<usize>, String), CipherError>)
        ensures
            !is_text_style(self@.1) ==> r == Err::<(Vec<usize>, String), CipherError>(CipherError::InvalidConfig),
            is_text_style(self@.1) ==> match recipe_encrypt(self@.0, encode_utf8(data@)) {
                Err(e) => r == Err::<(Vec<usize>, String), CipherError>(e),
                Ok((t, c)) => if valid_utf8(c) {
                    r matches Ok((t2, s)) && t2@ == t && s@ == decode_utf8(c)
                } else {
                    r == Err::<(Vec<usize>, String), CipherError>(CipherError::EncodingError)
                },
            },
    {
        if !self.accepts_characters() {
            return Err(CipherError::InvalidConfig);
        }
        let (tokens, bytes) = self.algorithm.encrypt(data.as_bytes())?;
        match crate::datastructs::decode_utf8_chars(bytes.as_slice()) {
            Some(chars) => Ok((tokens, string_of_chars(chars.as_slice()))),
            None => Err(CipherError::EncodingError),
        }
    }

    /// Encrypts a raw byte payload; text styles refuse it with `InvalidConfig`.
    pub fn encrypt_raw(&self, data: &[u8]) -> (r: Result<(Vec<usize>, Vec<u8>), CipherError>)
        ensures
            is_text_style(self@.1) ==> r == Err::<(Vec<usize>, Vec<u8>), CipherError>(CipherError::InvalidConfig),
            !is_text_style(self@.1) ==> match r {
                Ok((t, c)) => recipe_encrypt(self@.0, data@) == Ok::<(Seq<usize>, Seq<u8>), CipherError>((t@, c@)),
                Err(e) => recipe_encrypt(self@.0, data@) == Err::<(Seq<usize>, Seq<u8>), CipherError>(e),
            },
    {
        if self.accepts_characters() {
            return Err(CipherError::InvalidConfig);
        }
        self.algorithm.encrypt(data)
    }

    /// Decrypts to a raw byte payload; text styles refuse it with `InvalidConfig`.
    pub fn decrypt_raw(&self, data: (Vec<usize>, Vec<u8>)) -> (r: Result<Vec<u8>, CipherError>)
        ensures
            is_text_style(self@.1) ==> r == Err::<Vec<u8>, CipherError>(CipherError::InvalidConfig),
            !is_text_style(self@.1) ==> match r {
                Ok(x) => recipe_decrypt(self@.0, data.0@, data.1@) == Ok::<Seq<u8>, CipherError>(x@),
                Err(e) => recipe_decrypt(self@.0, data.0@, data.1@) == Err::<Seq<u8>, CipherError>(e),
            },
    {
        if self.accepts_characters() {
            return Err(CipherError::InvalidConfig);
        }
        self.algorithm.decrypt(data)
    }

    /// Decrypts and reads the result as UTF-8 text; `EncodingError` when it is not.
    pub fn decrypt_text(&self, data: (Vec<usize>, Vec<u8>)) -> (r: Result<String, CipherError>)
        ensures
            match recipe_decrypt(self@.0, data.0@, data.1@) {
                Err(e) => r == Err::<String, CipherError>(e),
                Ok(x) => if valid_utf8(x) {
                    r matches Ok(s) && s@ == decode_utf8(x)
                } else {
                    r == Err::<String, CipherError>(CipherError::EncodingError)
                },
            },
    {
        let bytes = self.algorithm.decrypt(data)?;
        match crate::datastructs::decode_utf8_chars(bytes.as_slice()) {
            Some(chars) => Ok(string_of_chars(chars.as_slice())),
            None => Err(CipherError::EncodingError),
        }
    }
}

} // verus!
