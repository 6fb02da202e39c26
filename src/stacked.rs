//! Stacked recipes: an ordered list of layers, each a padding regime, a
//! symbol domain and a transposer, applied left to right on encryption and
//! right to left on decryption.

use vstd::prelude::*;
use vstd::utf8::{decode_utf8, encode_utf8, valid_utf8};
use crate::block::{
    as_ints, gather, gather_by_map, kept, layout, pad_decrypt, pad_encrypt, pad_layout, pad_restore,
    pad_restore_map, padded_len, round_up, unpad_decrypt, unpad_encrypt, unpad_layout, unpad_restore,
    unpad_restore_map,
};
use crate::cyphers::ProvidesPad;
use crate::datastructs::{Bit, BitVector, bits_of, decode_utf8_chars, encode_chars, pack_bits};
use crate::decode::PermutationBlockDecoder;
use crate::error::CipherError;
use crate::permutation::{SimplePermutation, is_perm, perm_inverse};
use crate::rail_fence::{RailFenceCypher, rail_perm, lemma_rail_perm};
use crate::vertical::{VerticalPermutation, vertical_ok, vertical_perm, lemma_vertical_perm};

verus! {

/// How a layer treats an input that does not fill its last block.
#[derive(Copy, Clone, Debug, PartialEq, Eq, Structural)]
pub enum PadApproach {
    /// Fill the last block; the ciphertext length rounds up to whole blocks.
    Padding,
    /// Keep the length: thread the real symbols through a padded layout.
    Unpadding,
}

/// The symbols a layer permutes.
#[derive(Copy, Clone, Debug, PartialEq, Eq, Structural)]
pub enum EncryptionStyle {
    /// The bits of every byte, least significant first.
    Bit,
    /// Bytes as they are.
    Byte,
    /// Unicode scalars of UTF-8 text.
    Char,
    /// Consecutive groups of this many scalars.
    Group(usize),
}

/// The parameters of a transposer.
pub enum AlgoModel {
    Simple(Seq<usize>),
    /// rows, columns
    Rail(usize, usize),
    /// rows, columns, column permutation
    Vertical(usize, usize, Seq<usize>),
}

/// The encrypt permutation of a transposer.
pub open spec fn perm_of(m: AlgoModel) -> Seq<usize> {
    match m {
        AlgoModel::Simple(p) => p,
        AlgoModel::Rail(r, c) => rail_perm(r as int, c as int),
        AlgoModel::Vertical(r, c, pi) => vertical_perm(r as int, c as int, pi),
    }
}

/// The constraints each transposer's constructor enforces.
pub open spec fn algo_wf(m: AlgoModel) -> bool {
    match m {
        AlgoModel::Simple(p) => is_perm(p),
        AlgoModel::Rail(r, c) => 1 <= r < c,
        AlgoModel::Vertical(r, c, pi) => vertical_ok(r as int, c as int, pi),
    }
}

pub proof fn lemma_algo_perm(m: AlgoModel)
    requires
        algo_wf(m),
    ensures
        is_perm(perm_of(m)),
{
    match m {
        AlgoModel::Simple(p) => {},
        AlgoModel::Rail(r, c) => {
            lemma_rail_perm(r as int, c as int);
        },
        AlgoModel::Vertical(r, c, pi) => {
            lemma_vertical_perm(r as int, c as int, pi);
        },
    }
}

/// One of the three transposers, with its decryption.
#[derive(Debug, PartialEq, Eq)]
pub enum Algorithm {
    Permutation(PermutationBlockDecoder<SimplePermutation>),
    RailFence(PermutationBlockDecoder<RailFenceCypher>),
    Vertical(PermutationBlockDecoder<VerticalPermutation>),
}

impl View for Algorithm {
    type V = AlgoModel;

    open spec fn view(&self) -> AlgoModel {
        match self {
            Algorithm::Permutation(d) => AlgoModel::Simple(d.inner_spec()@),
            Algorithm::RailFence(d) => AlgoModel::Rail(d.inner_spec()@.0, d.inner_spec()@.1),
            Algorithm::Vertical(d) => AlgoModel::Vertical(
                d.inner_spec()@.0,
                d.inner_spec()@.1,
                d.inner_spec()@.2,
            ),
        }
    }
}

/// A value that can stand as a layer's transposer.
pub trait IntoAlgorithm: Sized {
    spec fn model(&self) -> AlgoModel;

    fn into_algorithm(self) -> (r: Algorithm)
        ensures
            r@ == self.model(),
            algo_wf(r@),
    ;
}

impl IntoAlgorithm for SimplePermutation {
    open spec fn model(&self) -> AlgoModel {
        AlgoModel::Simple(self@)
    }

    fn into_algorithm(self) -> (r: Algorithm) {
        proof {
            use_type_invariant(&self);
        }
        Algorithm::Permutation(PermutationBlockDecoder::new(self))
    }
}

impl IntoAlgorithm for RailFenceCypher {
    open spec fn model(&self) -> AlgoModel {
        AlgoModel::Rail(self@.0, self@.1)
    }

    fn into_algorithm(self) -> (r: Algorithm) {
        proof {
            use_type_invariant(&self);
        }
        Algorithm::RailFence(PermutationBlockDecoder::new(self))
    }
}

impl IntoAlgorithm for VerticalPermutation {
    open spec fn model(&self) -> AlgoModel {
        AlgoModel::Vertical(self@.0, self@.1, self@.2)
    }

    fn into_algorithm(self) -> (r: Algorithm) {
        proof {
            use_type_invariant(&self);
        }
        Algorithm::Vertical(PermutationBlockDecoder::new(self))
    }
}

impl IntoAlgorithm for Algorithm {
    open spec fn model(&self) -> AlgoModel {
        self@
    }

    fn into_algorithm(self) -> (r: Algorithm) {
        let _ = self.perm_pair();
        self
    }
}

impl Algorithm {
    /// The encrypt permutation and its inverse; every exec transposer is valid.
    pub(crate) fn perm_pair(&self) -> (r: (Vec<usize>, Vec<usize>))
        ensures
            algo_wf(self@),
            r.0@ == perm_of(self@),
            r.1@ == perm_inverse(perm_of(self@)),
            is_perm(r.0@),
            is_perm(r.1@),
    {
        match self {
            Algorithm::Permutation(d) => {
                let inner = d.get_inner();
                proof {
                    use_type_invariant(inner);
                }
                d.perm_pair()
            },
            Algorithm::RailFence(d) => {
                let inner = d.get_inner();
                proof {
                    use_type_invariant(inner);
                }
                d.perm_pair()
            },
            Algorithm::Vertical(d) => {
                let inner = d.get_inner();
                proof {
                    use_type_invariant(inner);
                }
                d.perm_pair()
            },
        }
    }

    /// Padded encryption by this transposer.
    pub fn epad<T: Copy + ProvidesPad>(&self, data: &[T]) -> (r: (usize, Vec<T>))
        requires
            padded_len(data@.len() as int, perm_of(self@).len() as int) <= usize::MAX,
        ensures
            r.0 == data@.len(),
            r.1@ == pad_encrypt(perm_of(self@), data@, T::pad_spec()),
    {
        match self {
            Algorithm::Permutation(d) => d.encrypt_with_pad(data),
            Algorithm::RailFence(d) => d.encrypt_with_pad(data),
            Algorithm::Vertical(d) => d.encrypt_with_pad(data),
        }
    }

    /// Padded decryption by this transposer.
    pub fn dpad<T: Copy + ProvidesPad>(&self, data: &[T], original_size: usize) -> (r: Result<Vec<T>, CipherError>)
        ensures
            r is Err <==> (data@.len() as int) % (perm_of(self@).len() as int) != 0,
            r is Err ==> r == Err::<Vec<T>, CipherError>(CipherError::MalformedCiphertext),
            r matches Ok(v) ==> v@ == pad_decrypt(perm_of(self@), data@, original_size as int),
    {
        match self {
            Algorithm::Permutation(d) => d.decrypt_with_pad(data, original_size),
            Algorithm::RailFence(d) => d.decrypt_with_pad(data, original_size),
            Algorithm::Vertical(d) => d.decrypt_with_pad(data, original_size),
        }
    }

    /// Unpadded encryption by this transposer.
    pub fn eunpad<T: Copy + ProvidesPad>(&self, data: &[T]) -> (r: Vec<T>)
        requires
            padded_len(data@.len() as int, perm_of(self@).len() as int) <= usize::MAX,
        ensures
            r@ == unpad_encrypt(perm_of(self@), data@),
    {
        match self {
            Algorithm::Permutation(d) => d.encrypt_unpad(data),
            Algorithm::RailFence(d) => d.encrypt_unpad(data),
            Algorithm::Vertical(d) => d.encrypt_unpad(data),
        }
    }

    /// Unpadded decryption by this transposer.
    pub fn dunpad<T: Copy + ProvidesPad>(&self, data: &[T]) -> (r: Vec<T>)
        requires
            padded_len(data@.len() as int, perm_of(self@).len() as int) <= usize::MAX,
        ensures
            r@ == unpad_decrypt(perm_of(self@), data@),
    {
        match self {
            Algorithm::Permutation(d) => d.decrypt_unpad(data),
            Algorithm::RailFence(d) => d.decrypt_unpad(data),
            Algorithm::Vertical(d) => d.decrypt_unpad(data),
        }
    }

    pub fn get_block_size(&self) -> (r: usize)
        ensures
            r == perm_of(self@).len(),
            r > 0,
    {
        let (forward, backward) = self.perm_pair();
        forward.len()
    }
}

/// The map that a layer's encryption applies to `l` symbols.
pub open spec fn encrypt_map(pad: PadApproach, p: Seq<usize>, l: int) -> Seq<int> {
    match pad {
        PadApproach::Padding => layout(p, l),
        PadApproach::Unpadding => kept(p, l),
    }
}

/// The map that a layer's decryption applies to `c_len` symbols with size token `token`.
pub open spec fn decrypt_map(pad: PadApproach, p: Seq<usize>, c_len: int, token: int) -> Seq<int> {
    match pad {
        PadApproach::Padding => pad_restore_map(p, c_len, token),
        PadApproach::Unpadding => unpad_restore_map(p, c_len),
    }
}

/// Why a layer's decryption of `c_len` symbols with size token `token`
/// cannot start, if it cannot: a padded ciphertext must be whole blocks, an
/// unpadded one must have the length its token records.
pub open spec fn decrypt_obstacle(pad: PadApproach, p: Seq<usize>, c_len: int, token: int) -> Option<CipherError> {
    if pad == PadApproach::Padding && c_len % (p.len() as int) != 0 {
        Some(CipherError::MalformedCiphertext)
    } else if pad == PadApproach::Unpadding && c_len != token {
        Some(CipherError::MalformedCiphertext)
    } else if pad == PadApproach::Unpadding && padded_len(c_len, p.len() as int) > usize::MAX {
        Some(CipherError::LengthOverflow)
    } else {
        None
    }
}

/// Spreads a map over groups of `g` scalars: scalar `k` of output group `j`
/// is scalar `k` of input group `map[j]`, or past the end (fill) for a hole.
pub open spec fn group_map(map: Seq<int>, g: int, n: int) -> Seq<int> {
    Seq::new(
        (map.len() * g) as nat,
        |q: int|
            if 0 <= map[q / g] < n {
                map[q / g] * g + q % g
            } else {
                n * g
            },
    )
}

/// One layer's encryption of `x`: the size token and the output bytes.
pub open spec fn layer_encrypt(
    pad: PadApproach,
    style: EncryptionStyle,
    algo: AlgoModel,
    x: Seq<u8>,
) -> Result<(usize, Seq<u8>), CipherError> {
    let p = perm_of(algo);
    let b = p.len() as int;
    match style {
        EncryptionStyle::Byte => {
            let n = x.len() as int;
            if padded_len(n, b) > usize::MAX {
                Err(CipherError::LengthOverflow)
            } else {
                Ok((n as usize, gather(x, encrypt_map(pad, p, n), 0u8)))
            }
        },
        EncryptionStyle::Bit => {
            let n = 8 * x.len() as int;
            if n > usize::MAX || padded_len(n, b) > usize::MAX {
                Err(CipherError::LengthOverflow)
            } else if pad == PadApproach::Padding && padded_len(padded_len(n, b), 8) > usize::MAX {
                Err(CipherError::LengthOverflow)
            } else {
                Ok((n as usize, pack_bits(gather(bits_of(x), encrypt_map(pad, p, n), Bit(false)))))
            }
        },
        EncryptionStyle::Char => {
            if !valid_utf8(x) {
                Err(CipherError::EncodingError)
            } else {
                let c = decode_utf8(x);
                let n = c.len() as int;
                if padded_len(n, b) > usize::MAX {
                    Err(CipherError::LengthOverflow)
                } else {
                    Ok((n as usize, encode_utf8(gather(c, encrypt_map(pad, p, n), '\0'))))
                }
            }
        },
        EncryptionStyle::Group(g) => {
            if g == 0 {
                Err(CipherError::InvalidConfig)
            } else if !valid_utf8(x) {
                Err(CipherError::EncodingError)
            } else {
                let c = decode_utf8(x);
                if c.len() % (g as nat) != 0 {
                    Err(CipherError::MalformedInput)
                } else {
                    let n = c.len() as int / g as int;
                    if padded_len(n, b) * g > usize::MAX {
                        Err(CipherError::LengthOverflow)
                    } else {
                        Ok(
                            (
                                n as usize,
                                encode_utf8(gather(c, group_map(encrypt_map(pad, p, n), g as int, n), '\0')),
                            ),
                        )
                    }
                }
            }
        },
    }
}

/// One layer's decryption of `y` with its size token.
pub open spec fn layer_decrypt(
    pad: PadApproach,
    style: EncryptionStyle,
    algo: AlgoModel,
    token: usize,
    y: Seq<u8>,
) -> Result<Seq<u8>, CipherError> {
    let p = perm_of(algo);
    match style {
        EncryptionStyle::Byte => {
            let n = y.len() as int;
            match decrypt_obstacle(pad, p, n, token as int) {
                Some(e) => Err(e),
                None => Ok(gather(y, decrypt_map(pad, p, n, token as int), 0u8)),
            }
        },
        EncryptionStyle::Bit => {
            let n = 8 * y.len() as int;
            let m = padded_len(token as int, p.len() as int);
            if n > usize::MAX {
                Err(CipherError::LengthOverflow)
            } else if pad == PadApproach::Padding {
                // the packed bytes hold the padded bits, then at most 7 zero bits
                if n < m || n > m + 7 {
                    Err(CipherError::MalformedCiphertext)
                } else {
                    Ok(pack_bits(gather(bits_of(y).take(m), decrypt_map(pad, p, m, token as int), Bit(false))))
                }
            } else {
                match decrypt_obstacle(pad, p, n, token as int) {
                    Some(e) => Err(e),
                    None => Ok(
                        pack_bits(gather(bits_of(y), decrypt_map(pad, p, n, token as int), Bit(false))),
                    ),
                }
            }
        },
        EncryptionStyle::Char => {
            if !valid_utf8(y) {
                Err(CipherError::EncodingError)
            } else {
                let c = decode_utf8(y);
                let n = c.len() as int;
                match decrypt_obstacle(pad, p, n, token as int) {
                    Some(e) => Err(e),
                    None => Ok(encode_utf8(gather(c, decrypt_map(pad, p, n, token as int), '\0'))),
                }
            }
        },
        EncryptionStyle::Group(g) => {
            if g == 0 {
                Err(CipherError::InvalidConfig)
            } else if !valid_utf8(y) {
                Err(CipherError::EncodingError)
            } else {
                let c = decode_utf8(y);
                if c.len() % (g as nat) != 0 {
                    Err(CipherError::MalformedInput)
                } else {
                    let n = c.len() as int / g as int;
                    match decrypt_obstacle(pad, p, n, token as int) {
                        Some(e) => Err(e),
                        None => Ok(
                            encode_utf8(
                                gather(c, group_map(decrypt_map(pad, p, n, token as int), g as int, n), '\0'),
                            ),
                        ),
                    }
                }
            }
        },
    }
}

/// The map that `encrypt_map` describes, computed.
fn encrypt_map_exec(algo: &Algorithm, pad: PadApproach, len: usize) -> (r: Vec<usize>)
    requires
        padded_len(len as int, perm_of(algo@).len() as int) <= usize::MAX,
    ensures
        as_ints(r@) == encrypt_map(pad, perm_of(algo@), len as int),
        algo_wf(algo@),
{
    let (forward, backward) = algo.perm_pair();
    match pad {
        PadApproach::Padding => pad_layout(forward.as_slice(), backward.as_slice(), len),
        PadApproach::Unpadding => unpad_layout(forward.as_slice(), backward.as_slice(), len),
    }
}

/// The map that `decrypt_map` describes, computed, or the obstacle.
fn decrypt_map_exec(algo: &Algorithm, pad: PadApproach, c_len: usize, token: usize) -> (r: Result<Vec<usize>, CipherError>)
    ensures
        algo_wf(algo@),
        match decrypt_obstacle(pad, perm_of(algo@), c_len as int, token as int) {
            Some(e) => r == Err::<Vec<usize>, CipherError>(e),
            None => r matches Ok(m) && as_ints(m@) == decrypt_map(pad, perm_of(algo@), c_len as int, token as int)
                && (forall|i: int| 0 <= i < m@.len() ==> (#[trigger] m@[i] as int) < c_len),
        },
{
    let (forward, backward) = algo.perm_pair();
    let b = forward.len();
    match pad {
        PadApproach::Padding => {
            if c_len % b != 0 {
                return Err(CipherError::MalformedCiphertext);
            }
            Ok(pad_restore(forward.as_slice(), c_len, token))
        },
        PadApproach::Unpadding => {
            if c_len != token {
                return Err(CipherError::MalformedCiphertext);
            }
            if c_len % b != 0 && c_len > usize::MAX - (b - c_len % b) {
                return Err(CipherError::LengthOverflow);
            }
            Ok(unpad_restore(forward.as_slice(), backward.as_slice(), c_len))
        },
    }
}

/// Spreads `map` over groups of `g` scalars; `n` is the number of input groups.
fn group_map_exec(map: &[usize], g: usize, n: usize) -> (r: Vec<usize>)
    requires
        g > 0,
        map@.len() * g <= usize::MAX,
        n * g <= usize::MAX,
    ensures
        as_ints(r@) == group_map(as_ints(map@), g as int, n as int),
{
    let total = map.len() * g;
    let ghost target = group_map(as_ints(map@), g as int, n as int);
    let mut r: Vec<usize> = Vec::with_capacity(total);
    let mut q: usize = 0;
    while q < total
        invariant
            g > 0,
            total == map@.len() * g,
            n * g <= usize::MAX,
            target == group_map(as_ints(map@), g as int, n as int),
            0 <= q <= total,
            as_ints(r@) == target.take(q as int),
        decreases total - q,
    {
        let j = q / g;
        let k = q % g;
        proof {
            vstd::arithmetic::div_mod::lemma_fundamental_div_mod(q as int, g as int);
            assert(j < map@.len()) by (nonlinear_arith)
                requires q == g * j + k, 0 <= k, q < total, total == map@.len() * g, g > 0;
        }
        let m = map[j];
        let v = if m < n {
            proof {
                assert(m * g + k < n * g) by (nonlinear_arith)
                    requires m < n, k < g;
            }
            m * g + k
        } else {
            n * g
        };
        let ghost before = r@;
        r.push(v);
        proof {
            crate::block::lemma_as_ints_push(before, v);
            assert(target.take(q + 1) =~= target.take(q as int).push(target[q as int]));
            assert(as_ints(r@) =~= target.take(q + 1));
        }
        q = q + 1;
    }
    proof {
        assert(as_ints(r@) =~= target);
    }
    r
}

/// Whether `padded_len(n, b)` fits in a `usize`.
fn fits_padded(n: usize, b: usize) -> (r: bool)
    requires
        b > 0,
    ensures
        r == (padded_len(n as int, b as int) <= usize::MAX),
{
    n % b == 0 || n <= usize::MAX - (b - n % b)
}

/// One layer's encryption, computed.
fn encrypt_layer(pad: PadApproach, style: EncryptionStyle, algo: &Algorithm, data: Vec<u8>) -> (r: Result<
    (usize, Vec<u8>),
    CipherError,
>)
    ensures
        match r {
            Ok((t, z)) => layer_encrypt(pad, style, algo@, data@) == Ok::<(usize, Seq<u8>), CipherError>((t, z@)),
            Err(e) => layer_encrypt(pad, style, algo@, data@) == Err::<(usize, Seq<u8>), CipherError>(e),
        },
{
    let b = algo.get_block_size();
    match style {
        EncryptionStyle::Byte => {
            let n = data.len();
            if !fits_padded(n, b) {
                return Err(CipherError::LengthOverflow);
            }
            let map = encrypt_map_exec(algo, pad, n);
            Ok((n, gather_by_map(data.as_slice(), map.as_slice(), 0u8)))
        },
        EncryptionStyle::Bit => {
            if data.len() > usize::MAX / 8 {
                return Err(CipherError::LengthOverflow);
            }
            let n = 8 * data.len();
            if !fits_padded(n, b) {
                return Err(CipherError::LengthOverflow);
            }
            if pad == PadApproach::Padding && !fits_padded(round_up(n, b), 8) {
                return Err(CipherError::LengthOverflow);
            }
            let bits = BitVector::from_bytes(data.as_slice()).0;
            let map = encrypt_map_exec(algo, pad, n);
            let out = gather_by_map(bits.as_slice(), map.as_slice(), Bit(false));
            Ok((n, BitVector(out).into_bytes()))
        },
        EncryptionStyle::Char => {
            let chars = match decode_utf8_chars(data.as_slice()) {
                Some(c) => c,
                None => {
                    return Err(CipherError::EncodingError);
                },
            };
            let n = chars.len();
            if !fits_padded(n, b) {
                return Err(CipherError::LengthOverflow);
            }
            let map = encrypt_map_exec(algo, pad, n);
            let out = gather_by_map(chars.as_slice(), map.as_slice(), '\0');
            Ok((n, encode_chars(out.as_slice())))
        },
        EncryptionStyle::Group(g) => {
            if g == 0 {
                return Err(CipherError::InvalidConfig);
            }
            let chars = match decode_utf8_chars(data.as_slice()) {
                Some(c) => c,
                None => {
                    return Err(CipherError::EncodingError);
                },
            };
            if chars.len() % g != 0 {
                return Err(CipherError::MalformedInput);
            }
            let n = chars.len() / g;
            proof {
                vstd::arithmetic::div_mod::lemma_fundamental_div_mod(chars@.len() as int, g as int);
                assert(n * g == chars@.len()) by (nonlinear_arith)
                    requires chars@.len() == g * n + 0;
            }
            if !fits_padded(n, b) {
                proof {
                    let pl = padded_len(n as int, b as int);
                    assert(pl * g > usize::MAX) by (nonlinear_arith)
                        requires pl > usize::MAX, g >= 1;
                }
                return Err(CipherError::LengthOverflow);
            }
            let padded = round_up(n, b);
            if padded > usize::MAX / g {
                proof {
                    assert(padded * g > usize::MAX) by (nonlinear_arith)
                        requires padded > usize::MAX / g, g > 0;
                    assert(padded_len(n as int, b as int) * g > usize::MAX);
                    assert(valid_utf8(data@));
                    assert(chars@ == decode_utf8(data@));
                    assert(n as int == chars@.len() as int / g as int);
                }
                return Err(CipherError::LengthOverflow);
            }
            proof {
                assert(padded * g <= usize::MAX) by (nonlinear_arith)
                    requires padded <= usize::MAX / g, g > 0;
                crate::block::lemma_padded_len(n as int, b as int);
            }
            let map = encrypt_map_exec(algo, pad, n);
            proof {
                let p = perm_of(algo@);
                lemma_algo_perm(algo@);
                crate::block::lemma_layout(p, n as int);
                assert(map@.len() <= padded) by {
                    assert(as_ints(map@).len() == map@.len());
                    if pad == PadApproach::Unpadding {
                        crate::block::lemma_kept(p, n as int);
                    }
                }
                assert(map@.len() * g <= usize::MAX) by (nonlinear_arith)
                    requires map@.len() <= padded, padded * g <= usize::MAX, g > 0;
            }
            let gmap = group_map_exec(map.as_slice(), g, n);
            let out = gather_by_map(chars.as_slice(), gmap.as_slice(), '\0');
            Ok((n, encode_chars(out.as_slice())))
        },
    }
}

/// One layer's decryption, computed.
fn decrypt_layer(pad: PadApproach, style: EncryptionStyle, algo: &Algorithm, token: usize, data: Vec<u8>) -> (r:
    Result<Vec<u8>, CipherError>)
    ensures
        match r {
            Ok(z) => layer_decrypt(pad, style, algo@, token, data@) == Ok::<Seq<u8>, CipherError>(z@),
            Err(e) => layer_decrypt(pad, style, algo@, token, data@) == Err::<Seq<u8>, CipherError>(e),
        },
{
    match style {
        EncryptionStyle::Byte => {
            let map = decrypt_map_exec(algo, pad, data.len(), token)?;
            Ok(gather_by_map(data.as_slice(), map.as_slice(), 0u8))
        },
        EncryptionStyle::Bit => {
            if data.len() > usize::MAX / 8 {
                return Err(CipherError::LengthOverflow);
            }
            let n = 8 * data.len();
            let bits = BitVector::from_bytes(data.as_slice()).0;
            match pad {
                PadApproach::Padding => {
                    let b = algo.get_block_size();
                    if !fits_padded(token, b) {
                        return Err(CipherError::MalformedCiphertext);
                    }
                    let m = round_up(token, b);
                    if n < m || n - m > 7 {
                        return Err(CipherError::MalformedCiphertext);
                    }
                    proof {
                        crate::block::lemma_padded_len(token as int, b as int);
                    }
                    let padded = crate::permutation::copy_range(bits.as_slice(), 0, m);
                    let map = decrypt_map_exec(algo, pad, m, token)?;
                    proof {
                        assert(padded@ =~= bits@.take(m as int));
                    }
                    let out = gather_by_map(padded.as_slice(), map.as_slice(), Bit(false));
                    Ok(BitVector(out).into_bytes())
                },
                PadApproach::Unpadding => {
                    let map = decrypt_map_exec(algo, pad, n, token)?;
                    let out = gather_by_map(bits.as_slice(), map.as_slice(), Bit(false));
                    Ok(BitVector(out).into_bytes())
                },
            }
        },
        EncryptionStyle::Char => {
            let chars = match decode_utf8_chars(data.as_slice()) {
                Some(c) => c,
                None => {
                    return Err(CipherError::EncodingError);
                },
            };
            let map = decrypt_map_exec(algo, pad, chars.len(), token)?;
            let out = gather_by_map(chars.as_slice(), map.as_slice(), '\0');
            Ok(encode_chars(out.as_slice()))
        },
        EncryptionStyle::Group(g) => {
            if g == 0 {
                return Err(CipherError::InvalidConfig);
            }
            let chars = match decode_utf8_chars(data.as_slice()) {
                Some(c) => c,
                None => {
                    return Err(CipherError::EncodingError);
                },
            };
            if chars.len() % g != 0 {
                return Err(CipherError::MalformedInput);
            }
            let n = chars.len() / g;
            proof {
                vstd::arithmetic::div_mod::lemma_fundamental_div_mod(chars@.len() as int, g as int);
                assert(n * g == chars@.len()) by (nonlinear_arith)
                    requires chars@.len() == g * n + 0;
            }
            let map = decrypt_map_exec(algo, pad, n, token)?;
            proof {
                assert(map@.len() <= n) by {
                    assert(as_ints(map@).len() == map@.len());
                }
                assert(map@.len() * g <= usize::MAX) by (nonlinear_arith)
                    requires map@.len() <= n, n * g <= usize::MAX, g > 0;
            }
            let gmap = group_map_exec(map.as_slice(), g, n);
            let out = gather_by_map(chars.as_slice(), gmap.as_slice(), '\0');
            Ok(encode_chars(out.as_slice()))
        },
    }
}

/// A layer's parameters.
pub type LayerModel = (PadApproach, EncryptionStyle, AlgoModel);

/// Every transposer of the recipe is valid.
pub open spec fn recipe_wf(layers: Seq<LayerModel>) -> bool {
    forall|i: int| 0 <= i < layers.len() ==> algo_wf(#[trigger] layers[i].2)
}

/// A style that names a group size names a positive one.
pub open spec fn style_ok(style: EncryptionStyle) -> bool {
    style is Group ==> style->Group_0 >= 1
}

/// Every group size of the recipe is positive.
pub open spec fn styles_ok(layers: Seq<LayerModel>) -> bool {
    forall|i: int| 0 <= i < layers.len() ==> style_ok(#[trigger] layers[i].1)
}

/// Encryption of `x` by the layers in order: the size tokens and the ciphertext.
pub open spec fn recipe_encrypt(layers: Seq<LayerModel>, x: Seq<u8>) -> Result<(Seq<usize>, Seq<u8>), CipherError>
    decreases layers.len(),
{
    if layers.len() == 0 {
        Ok((Seq::empty(), x))
    } else {
        match recipe_encrypt(layers.drop_last(), x) {
            Err(e) => Err(e),
            Ok((tokens, y)) => {
                let l = layers.last();
                match layer_encrypt(l.0, l.1, l.2, y) {
                    Err(e) => Err(e),
                    Ok((t, z)) => Ok((tokens.push(t), z)),
                }
            },
        }
    }
}

/// Decryption by the layers in reverse order, each with its token.
pub open spec fn decrypt_layers(layers: Seq<LayerModel>, tokens: Seq<usize>, c: Seq<u8>) -> Result<Seq<u8>, CipherError>
    decreases layers.len(),
{
    if layers.len() == 0 || tokens.len() == 0 {
        Ok(c)
    } else {
        let l = layers.last();
        match layer_decrypt(l.0, l.1, l.2, tokens.last(), c) {
            Err(e) => Err(e),
            Ok(y) => decrypt_layers(layers.drop_last(), tokens.drop_last(), y),
        }
    }
}

/// Decryption of `c`; the token list must have one entry per layer.
pub open spec fn recipe_decrypt(layers: Seq<LayerModel>, tokens: Seq<usize>, c: Seq<u8>) -> Result<Seq<u8>, CipherError> {
    if tokens.len() != layers.len() {
        Err(CipherError::TokenMismatch)
    } else {
        decrypt_layers(layers, tokens, c)
    }
}

/// Once a prefix of the layers fails, the whole recipe fails the same way.
proof fn lemma_encrypt_error_extends(layers: Seq<LayerModel>, x: Seq<u8>, k: int)
    requires
        0 <= k <= layers.len(),
        recipe_encrypt(layers.take(k), x) is Err,
    ensures
        recipe_encrypt(layers, x) == recipe_encrypt(layers.take(k), x),
    decreases layers.len() - k,
{
    if k < layers.len() {
        assert(layers.take(k + 1).drop_last() =~= layers.take(k));
        lemma_encrypt_error_extends(layers, x, k + 1);
    } else {
        assert(layers.take(k) =~= layers);
    }
}

/// An ordered list of layers.
#[derive(Debug, PartialEq, Eq)]
pub struct StackedCypher {
    pub(crate) algorithms: Vec<(PadApproach, EncryptionStyle, Algorithm)>,
}

impl View for StackedCypher {
    type V = Seq<LayerModel>;

    closed spec fn view(&self) -> Seq<LayerModel> {
        self.algorithms@.map_values(|l: (PadApproach, EncryptionStyle, Algorithm)| (l.0, l.1, l.2@))
    }
}

impl StackedCypher {
    #[verifier::type_invariant]
    pub open spec fn wf(&self) -> bool {
        recipe_wf(self@) && styles_ok(self@)
    }

    /// The empty recipe.
    pub fn new() -> (r: Self)
        ensures
            r@ == Seq::<LayerModel>::empty(),
    {
        let r = StackedCypher { algorithms: Vec::new() };
        proof {
            assert(r@ =~= Seq::<LayerModel>::empty());
        }
        r
    }

    /// Appends a layer; a group style needs a positive group size.
    pub fn push<C: IntoAlgorithm>(&mut self, pad_approach: PadApproach, style: EncryptionStyle, cypher: C)
        requires
            style_ok(style),
        ensures
            final(self)@ == old(self)@.push((pad_approach, style, cypher.model())),
    {
        let ghost m = cypher.model();
        let algorithm = cypher.into_algorithm();
        proof {
            use_type_invariant(&*self);
        }
        let mut layers: Vec<(PadApproach, EncryptionStyle, Algorithm)> = Vec::new();
        core::mem::swap(&mut self.algorithms, &mut layers);
        layers.push((pad_approach, style, algorithm));
        proof {
            let v = layers@.map_values(|l: (PadApproach, EncryptionStyle, Algorithm)| (l.0, l.1, l.2@));
            assert(v =~= old(self)@.push((pad_approach, style, m)));
        }
        core::mem::swap(&mut self.algorithms, &mut layers);
        proof {
            assert(self@ =~= old(self)@.push((pad_approach, style, m)));
        }
    }

    /// The number of layers.
    pub fn len(&self) -> (r: usize)
        ensures
            r == self@.len(),
    {
        self.algorithms.len()
    }

    /// Every recipe value holds valid transposers and positive group sizes.
    pub(crate) fn well_formed(&self) -> (r: bool)
        ensures
            r,
            recipe_wf(self@),
            styles_ok(self@),
            self@.len() <= usize::MAX,
    {
        proof {
            use_type_invariant(self);
        }
        let _ = self.algorithms.len();
        true
    }

    /// The layers in order.
    pub fn items(&self) -> (r: &[(PadApproach, EncryptionStyle, Algorithm)])
        ensures
            r@.map_values(|l: (PadApproach, EncryptionStyle, Algorithm)| (l.0, l.1, l.2@)) == self@,
    {
        self.algorithms.as_slice()
    }

    /// Encrypts `data` layer by layer, collecting one size token per layer.
    pub fn encrypt(&self, data: &[u8]) -> (r: Result<(Vec<usize>, Vec<u8>), CipherError>)
        ensures
            recipe_wf(self@),
            match r {
                Ok((t, c)) => recipe_encrypt(self@, data@) == Ok::<(Seq<usize>, Seq<u8>), CipherError>((t@, c@)),
                Err(e) => recipe_encrypt(self@, data@) == Err::<(Seq<usize>, Seq<u8>), CipherError>(e),
            },
    {
        proof {
            use_type_invariant(self);
        }
        let n = self.algorithms.len();
        let mut tokens: Vec<usize> = Vec::new();
        let mut cur: Vec<u8> = crate::permutation::copy_of(data);
        let mut i: usize = 0;
        proof {
            assert(self@.take(0) =~= Seq::<LayerModel>::empty());
            assert(tokens@ =~= Seq::<usize>::empty());
        }
        while i < n
            invariant
                n == self@.len(),
                n == self.algorithms@.len(),
                recipe_wf(self@),
                0 <= i <= n,
                recipe_encrypt(self@.take(i as int), data@) == Ok::<(Seq<usize>, Seq<u8>), CipherError>((tokens@, cur@)),
            decreases n - i,
        {
            let layer = &self.algorithms[i];
            proof {
                assert(self@.take(i + 1).drop_last() =~= self@.take(i as int));
                assert(self@.take(i + 1).last() == (layer.0, layer.1, layer.2@));
            }
            match encrypt_layer(layer.0, layer.1, &layer.2, cur) {
                Err(e) => {
                    proof {
                        lemma_encrypt_error_extends(self@, data@, i + 1);
                    }
                    return Err(e);
                },
                Ok((t, z)) => {
                    tokens.push(t);
                    cur = z;
                },
            }
            i = i + 1;
        }
        proof {
            assert(self@.take(n as int) =~= self@);
        }
        Ok((tokens, cur))
    }

    /// Decrypts layer by layer in reverse order, each layer with its token.
    pub fn decrypt(&self, data: (Vec<usize>, Vec<u8>)) -> (r: Result<Vec<u8>, CipherError>)
        ensures
            match r {
                Ok(x) => recipe_decrypt(self@, data.0@, data.1@) == Ok::<Seq<u8>, CipherError>(x@),
                Err(e) => recipe_decrypt(self@, data.0@, data.1@) == Err::<Seq<u8>, CipherError>(e),
            },
    {
        let (sizes, bytes) = data;
        let n = self.algorithms.len();
        if sizes.len() != n {
            return Err(CipherError::TokenMismatch);
        }
        let ghost start = bytes@;
        let mut cur = bytes;
        let mut i: usize = n;
        proof {
            assert(self@.take(n as int) =~= self@);
            assert(sizes@.take(n as int) =~= sizes@);
        }
        while i > 0
            invariant
                n == self@.len(),
                n == self.algorithms@.len(),
                n == sizes@.len(),
                0 <= i <= n,
                data.0@ == sizes@,
                data.1@ == start,
                decrypt_layers(self@.take(i as int), sizes@.take(i as int), cur@) == decrypt_layers(self@, sizes@, start),
            decreases i,
        {
            let layer = &self.algorithms[i - 1];
            let token = sizes[i - 1];
            proof {
                assert(self@.take(i as int).drop_last() =~= self@.take(i - 1));
                assert(sizes@.take(i as int).drop_last() =~= sizes@.take(i - 1));
                assert(self@.take(i as int).last() == (layer.0, layer.1, layer.2@));
            }
            let ghost before = cur@;
            let step = decrypt_layer(layer.0, layer.1, &layer.2, token, cur);
            proof {
                assert(sizes@.take(i as int).last() == token);
                assert(self@.take(i as int).len() > 0);
            }
            match step {
                Err(e) => {
                    proof {
                        assert(decrypt_layers(self@.take(i as int), sizes@.take(i as int), before) == Err::<Seq<u8>, CipherError>(e));
                        assert(recipe_decrypt(self@, sizes@, start) == Err::<Seq<u8>, CipherError>(e));
                    }
                    return Err(e);
                },
                Ok(y) => {
                    cur = y;
                },
            }
            i = i - 1;
        }
        Ok(cur)
    }
}

} // verus!
