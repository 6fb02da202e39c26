//! Symbol domains: the bits of a byte buffer (least significant bit first),
//! Unicode scalars decoded from UTF-8, and fixed-width groups of scalars.

use vstd::prelude::*;
use vstd::utf8::{decode_utf8, encode_utf8, valid_utf8};

verus! {

/// One bit of a byte buffer.
#[derive(Copy, Clone, Debug, PartialEq, Eq, Default)]
pub struct Bit(pub bool);

/// Bit `k` of `b`, counting from the least significant.
pub open spec fn bit_of(b: u8, k: u8) -> bool {
    (b >> k) & 1u8 == 1u8
}

/// The bits of `bytes`, eight per byte, least significant first.
pub open spec fn bits_of(bytes: Seq<u8>) -> Seq<Bit> {
    Seq::new(8 * bytes.len(), |i: int| Bit(bit_of(bytes[i / 8], (i % 8) as u8)))
}

/// Bit `i` of `bits` as 0 or 1; positions past the end read as 0.
pub open spec fn bit_value(bits: Seq<Bit>, i: int) -> u8 {
    if 0 <= i < bits.len() && bits[i].0 {
        1
    } else {
        0
    }
}

pub open spec fn combine(b0: u8, b1: u8, b2: u8, b3: u8, b4: u8, b5: u8, b6: u8, b7: u8) -> u8 {
    b0 | (b1 << 1u8) | (b2 << 2u8) | (b3 << 3u8) | (b4 << 4u8) | (b5 << 5u8) | (b6 << 6u8) | (b7 << 7u8)
}

/// The byte whose bit `k` is `bits[s + k]`, zero where `bits` has ended.
pub open spec fn byte_from(bits: Seq<Bit>, s: int) -> u8 {
    combine(
        bit_value(bits, s),
        bit_value(bits, s + 1),
        bit_value(bits, s + 2),
        bit_value(bits, s + 3),
        bit_value(bits, s + 4),
        bit_value(bits, s + 5),
        bit_value(bits, s + 6),
        bit_value(bits, s + 7),
    )
}

/// Packs bits eight to a byte; a short last byte is filled with zero bits.
pub open spec fn pack_bits(bits: Seq<Bit>) -> Seq<u8> {
    Seq::new((bits.len() + 7) / 8, |i: int| byte_from(bits, 8 * i))
}

proof fn lemma_byte_bits(x: u8)
    ensures
        x == combine(
            (x >> 0u8) & 1,
            (x >> 1u8) & 1,
            (x >> 2u8) & 1,
            (x >> 3u8) & 1,
            (x >> 4u8) & 1,
            (x >> 5u8) & 1,
            (x >> 6u8) & 1,
            (x >> 7u8) & 1,
        ),
{
    assert(x == ((x >> 0u8) & 1) | (((x >> 1u8) & 1) << 1u8) | (((x >> 2u8) & 1) << 2u8) | (((x
        >> 3u8) & 1) << 3u8) | (((x >> 4u8) & 1) << 4u8) | (((x >> 5u8) & 1) << 5u8) | (((x >> 6u8)
        & 1) << 6u8) | (((x >> 7u8) & 1) << 7u8)) by (bit_vector);
}

proof fn lemma_combine_bits(b0: u8, b1: u8, b2: u8, b3: u8, b4: u8, b5: u8, b6: u8, b7: u8)
    requires
        b0 <= 1,
        b1 <= 1,
        b2 <= 1,
        b3 <= 1,
        b4 <= 1,
        b5 <= 1,
        b6 <= 1,
        b7 <= 1,
    ensures
        (combine(b0, b1, b2, b3, b4, b5, b6, b7) >> 0u8) & 1 == b0,
        (combine(b0, b1, b2, b3, b4, b5, b6, b7) >> 1u8) & 1 == b1,
        (combine(b0, b1, b2, b3, b4, b5, b6, b7) >> 2u8) & 1 == b2,
        (combine(b0, b1, b2, b3, b4, b5, b6, b7) >> 3u8) & 1 == b3,
        (combine(b0, b1, b2, b3, b4, b5, b6, b7) >> 4u8) & 1 == b4,
        (combine(b0, b1, b2, b3, b4, b5, b6, b7) >> 5u8) & 1 == b5,
        (combine(b0, b1, b2, b3, b4, b5, b6, b7) >> 6u8) & 1 == b6,
        (combine(b0, b1, b2, b3, b4, b5, b6, b7) >> 7u8) & 1 == b7,
{
    let c = combine(b0, b1, b2, b3, b4, b5, b6, b7);
    assert(c == b0 | (b1 << 1u8) | (b2 << 2u8) | (b3 << 3u8) | (b4 << 4u8) | (b5 << 5u8) | (b6
        << 6u8) | (b7 << 7u8));
    assert({
        let c = b0 | (b1 << 1u8) | (b2 << 2u8) | (b3 << 3u8) | (b4 << 4u8) | (b5 << 5u8) | (b6
            << 6u8) | (b7 << 7u8);
        &&& (c >> 0u8) & 1 == b0
        &&& (c >> 1u8) & 1 == b1
        &&& (c >> 2u8) & 1 == b2
        &&& (c >> 3u8) & 1 == b3
        &&& (c >> 4u8) & 1 == b4
        &&& (c >> 5u8) & 1 == b5
        &&& (c >> 6u8) & 1 == b6
        &&& (c >> 7u8) & 1 == b7
    }) by (bit_vector)
        requires
            b0 <= 1,
            b1 <= 1,
            b2 <= 1,
            b3 <= 1,
            b4 <= 1,
            b5 <= 1,
            b6 <= 1,
            b7 <= 1,
    ;
}

proof fn lemma_bit_value_01(x: u8, k: u8)
    ensures
        (if bit_of(x, k) { 1u8 } else { 0u8 }) == (x >> k) & 1,
{
    assert((x >> k) & 1 <= 1) by (bit_vector);
}

/// Unpacking then packing gives the bytes back.
pub proof fn lemma_pack_bits_of(bytes: Seq<u8>)
    ensures
        pack_bits(bits_of(bytes)) == bytes,
{
    let bits = bits_of(bytes);
    assert forall|i: int| 0 <= i < bytes.len() implies #[trigger] pack_bits(bits)[i] == bytes[i] by {
        let x = bytes[i];
        assert forall|k: int| 0 <= k < 8 implies #[trigger] bit_value(bits, 8 * i + k) == (x >> (k as u8)) & 1 by {
            vstd::arithmetic::div_mod::lemma_fundamental_div_mod_converse(8 * i + k, 8, i, k);
            lemma_bit_value_01(x, k as u8);
        }
        lemma_byte_bits(x);
        assert(bit_value(bits, 8 * i + 0) == (x >> 0u8) & 1);
        assert(bit_value(bits, 8 * i + 1) == (x >> 1u8) & 1);
        assert(bit_value(bits, 8 * i + 2) == (x >> 2u8) & 1);
        assert(bit_value(bits, 8 * i + 3) == (x >> 3u8) & 1);
        assert(bit_value(bits, 8 * i + 4) == (x >> 4u8) & 1);
        assert(bit_value(bits, 8 * i + 5) == (x >> 5u8) & 1);
        assert(bit_value(bits, 8 * i + 6) == (x >> 6u8) & 1);
        assert(bit_value(bits, 8 * i + 7) == (x >> 7u8) & 1);
    }
    assert(pack_bits(bits) =~= bytes);
}

/// Packing then unpacking gives the bits back, followed by zero bits up to
/// a whole byte.
pub proof fn lemma_bits_of_pack(bits: Seq<Bit>)
    ensures
        bits_of(pack_bits(bits)).len() == 8 * ((bits.len() + 7) / 8),
        bits.len() <= bits_of(pack_bits(bits)).len() < bits.len() + 8,
        forall|j: int| 0 <= j < bits.len() ==> #[trigger] bits_of(pack_bits(bits))[j] == bits[j],
        forall|j: int| bits.len() <= j < bits_of(pack_bits(bits)).len() ==> #[trigger] bits_of(pack_bits(bits))[j] == Bit(false),
        bits.len() % 8 == 0 ==> bits_of(pack_bits(bits)) == bits,
{
    let packed = pack_bits(bits);
    let u = bits_of(packed);
    let n = bits.len() as int;
    assert(8 * ((n + 7) / 8) >= n && 8 * ((n + 7) / 8) < n + 8) by {
        vstd::arithmetic::div_mod::lemma_fundamental_div_mod(n + 7, 8);
        vstd::arithmetic::div_mod::lemma_mod_bound(n + 7, 8);
    }
    assert forall|j: int| 0 <= j < u.len() implies #[trigger] u[j] == Bit(bit_value(bits, j) == 1) by {
        let i = j / 8;
        let k = j % 8;
        vstd::arithmetic::div_mod::lemma_fundamental_div_mod(j, 8);
        vstd::arithmetic::div_mod::lemma_mod_bound(j, 8);
        let b0 = bit_value(bits, 8 * i);
        let b1 = bit_value(bits, 8 * i + 1);
        let b2 = bit_value(bits, 8 * i + 2);
        let b3 = bit_value(bits, 8 * i + 3);
        let b4 = bit_value(bits, 8 * i + 4);
        let b5 = bit_value(bits, 8 * i + 5);
        let b6 = bit_value(bits, 8 * i + 6);
        let b7 = bit_value(bits, 8 * i + 7);
        lemma_combine_bits(b0, b1, b2, b3, b4, b5, b6, b7);
        assert(packed[i] == combine(b0, b1, b2, b3, b4, b5, b6, b7));
        assert(j == 8 * i + k);
    }
    assert forall|j: int| 0 <= j < n implies #[trigger] u[j] == bits[j] by {
        assert(u[j] == Bit(bit_value(bits, j) == 1));
    }
    assert forall|j: int| n <= j < u.len() implies #[trigger] u[j] == Bit(false) by {
        assert(u[j] == Bit(bit_value(bits, j) == 1));
    }
    if n % 8 == 0 {
        vstd::arithmetic::div_mod::lemma_fundamental_div_mod(n, 8);
        vstd::arithmetic::div_mod::lemma_fundamental_div_mod_converse(n + 7, 8, n / 8, 7);
        assert(u =~= bits);
    }
}

/// The eight bits of `value`, least significant first.
pub fn to_bits(value: u8) -> (r: Vec<Bit>)
    ensures
        r@ == Seq::new(8, |k: int| Bit(bit_of(value, k as u8))),
{
    let mut r: Vec<Bit> = Vec::with_capacity(8);
    let mut k: u8 = 0;
    while k < 8
        invariant
            0 <= k <= 8,
            r@ == Seq::new(k as nat, |x: int| Bit(bit_of(value, x as u8))),
        decreases 8 - k,
    {
        r.push(Bit((value >> k) & 1 == 1));
        proof {
            assert(r@ =~= Seq::new((k + 1) as nat, |x: int| Bit(bit_of(value, x as u8))));
        }
        k = k + 1;
    }
    r
}

/// The byte whose low bits are `bits`, least significant first; missing
/// high bits are zero.
pub fn from_bits(bits: &[Bit]) -> (r: u8)
    requires
        bits@.len() <= 8,
    ensures
        r == byte_from(bits@, 0),
{
    let mut v: [u8; 8] = [0u8; 8];
    let mut k: usize = 0;
    while k < bits.len()
        invariant
            bits@.len() <= 8,
            0 <= k <= bits@.len(),
            forall|x: int| 0 <= x < 8 ==> #[trigger] v@[x] == if x < k { bit_value(bits@, x) } else { 0u8 },
        decreases bits@.len() - k,
    {
        if bits[k].0 {
            v[k] = 1;
        }
        k = k + 1;
    }
    v[0] | (v[1] << 1u8) | (v[2] << 2u8) | (v[3] << 3u8) | (v[4] << 4u8) | (v[5] << 5u8) | (v[6] << 6u8) | (v[7] << 7u8)
}

/// The bits of a byte buffer.
pub struct BitVector(pub Vec<Bit>);

impl BitVector {
    /// Expands every byte into its eight bits, least significant first.
    pub fn from_bytes(bytes: &[u8]) -> (r: BitVector)
        requires
            8 * bytes@.len() <= usize::MAX,
        ensures
            r.0@ == bits_of(bytes@),
    {
        let mut bits: Vec<Bit> = Vec::with_capacity(8 * bytes.len());
        let mut i: usize = 0;
        while i < bytes.len()
            invariant
                0 <= i <= bytes@.len(),
                bits@ == bits_of(bytes@.take(i as int)),
            decreases bytes@.len() - i,
        {
            let mut more = to_bits(bytes[i]);
            bits.append(&mut more);
            proof {
                let t = bytes@.take(i + 1);
                assert forall|j: int| 0 <= j < 8 * (i + 1) implies #[trigger] bits@[j] == bits_of(t)[j] by {
                    if j >= 8 * i {
                        vstd::arithmetic::div_mod::lemma_fundamental_div_mod_converse(j, 8, i as int, j - 8 * i);
                    } else {
                        vstd::arithmetic::div_mod::lemma_fundamental_div_mod(j, 8);
                        vstd::arithmetic::div_mod::lemma_mod_bound(j, 8);
                        assert(j / 8 < i) by (nonlinear_arith)
                            requires j == 8 * (j / 8) + j % 8, 0 <= j % 8, j < 8 * i;
                    }
                }
                assert(bits@ =~= bits_of(t));
            }
            i = i + 1;
        }
        proof {
            assert(bytes@.take(bytes@.len() as int) =~= bytes@);
        }
        BitVector(bits)
    }

    /// Packs the bits eight to a byte, zero-filling a short last byte.
    pub fn into_bytes(self) -> (r: Vec<u8>)
        ensures
            r@ == pack_bits(self.0@),
    {
        let bits = self.0;
        let n = bits.len();
        let count = n / 8 + if n % 8 == 0 { 0 } else { 1 };
        proof {
            vstd::arithmetic::div_mod::lemma_fundamental_div_mod(n as int, 8);
            vstd::arithmetic::div_mod::lemma_fundamental_div_mod(n + 7, 8);
            vstd::arithmetic::div_mod::lemma_mod_bound(n as int, 8);
            vstd::arithmetic::div_mod::lemma_mod_bound(n + 7, 8);
            assert(count == (n + 7) / 8);
        }
        let mut r: Vec<u8> = Vec::with_capacity(count);
        let mut i: usize = 0;
        while i < count
            invariant
                n == bits@.len(),
                count == (n + 7) / 8,
                0 <= i <= count,
                r@ == pack_bits(bits@).take(i as int),
            decreases count - i,
        {
            let start = 8 * i;
            let end = if n - start < 8 { n } else { start + 8 };
            let chunk = crate::permutation::copy_range(bits.as_slice(), start, end);
            let byte = from_bits(chunk.as_slice());
            proof {
                assert forall|k: int| 0 <= k < 8 implies bit_value(chunk@, k) == bit_value(bits@, start + k) by {}
            }
            r.push(byte);
            proof {
                assert(r@ =~= pack_bits(bits@).take(i + 1));
            }
            i = i + 1;
        }
        proof {
            assert(r@ =~= pack_bits(bits@));
        }
        r
    }
}

/// Relies on `std::str::from_utf8`: it accepts exactly the valid UTF-8
/// buffers, and the string it returns holds the decoded scalars.
#[verifier::external_body]
pub(crate) fn decode_utf8_chars(bytes: &[u8]) -> (r: Option<Vec<char>>)
    ensures
        r is Some <==> valid_utf8(bytes@),
        r matches Some(c) ==> c@ == decode_utf8(bytes@),
{
    match std::str::from_utf8(bytes) {
        Ok(s) => Some(s.chars().collect()),
        Err(_) => None,
    }
}

/// Relies on `String: FromIterator<char>`: the string holds the given scalars.
#[verifier::external_body]
pub(crate) fn string_of_chars(chars: &[char]) -> (r: String)
    ensures
        r@ == chars@,
{
    chars.iter().collect::<String>()
}

/// The UTF-8 encoding of `chars`.
pub fn encode_chars(chars: &[char]) -> (r: Vec<u8>)
    ensures
        r@ == encode_utf8(chars@),
{
    let s = string_of_chars(chars);
    copy_bytes(s.as_str().as_bytes())
}

fn copy_bytes(b: &[u8]) -> (r: Vec<u8>)
    ensures
        r@ == b@,
{
    crate::permutation::copy_of(b)
}

/// A group of scalars treated as one symbol.
#[derive(Debug, PartialEq, Eq)]
pub struct CharGroup(pub Vec<char>);

/// Splits the scalars of `s` into consecutive groups of `group_size`; the
/// last group is shorter when the count is not a multiple.
pub fn groups_from_str(s: &str, group_size: usize) -> (r: Vec<CharGroup>)
    requires
        group_size > 0,
    ensures
        r@.len() == (s@.len() + group_size - 1) / (group_size as int),
        forall|i: int| 0 <= i < r@.len() ==> #[trigger] r@[i].0@ == s@.subrange(
            i * group_size,
            if (i + 1) * group_size < s@.len() { (i + 1) * group_size } else { s@.len() as int },
        ),
{
    proof {
        vstd::utf8::encode_utf8_valid_utf8(s@);
        vstd::utf8::encode_utf8_decode_utf8(s@);
    }
    let chars = match decode_utf8_chars(s.as_bytes()) {
        Some(c) => c,
        None => Vec::new(),
    };
    let n = chars.len();
    let g = group_size;
    proof {
        vstd::arithmetic::div_mod::lemma_fundamental_div_mod(n as int, g as int);
        vstd::arithmetic::div_mod::lemma_mod_bound(n as int, g as int);
        let q = n as int / g as int;
        let m = n as int % g as int;
        if m == 0 {
            assert(n + g - 1 == q * g + (g - 1)) by (nonlinear_arith)
                requires n == g * q + m, m == 0;
            vstd::arithmetic::div_mod::lemma_fundamental_div_mod_converse((n + g - 1) as int, g as int, q, (g - 1) as int);
        } else {
            assert(n + g - 1 == (q + 1) * g + (m - 1)) by (nonlinear_arith)
                requires n == g * q + m;
            vstd::arithmetic::div_mod::lemma_fundamental_div_mod_converse((n + g - 1) as int, g as int, q + 1, m - 1);
            assert(q < n) by (nonlinear_arith)
                requires n == g * q + m, m >= 1, g >= 2, q >= 0;
        }
    }
    let count = if n % g == 0 { n / g } else { n / g + 1 };
    let mut r: Vec<CharGroup> = Vec::with_capacity(count);
    let mut i: usize = 0;
    while i < count
        invariant
            chars@ == s@,
            n == chars@.len(),
            g == group_size,
            g > 0,
            count == (n + g - 1) / (g as int),
            n == g * (n / g) + n % g,
            0 <= n % g < g,
            count == n / g + if n % g == 0 { 0int } else { 1int },
            0 <= i <= count,
            r@.len() == i,
            forall|k: int| 0 <= k < i ==> #[trigger] r@[k].0@ == s@.subrange(
                k * g,
                if (k + 1) * g < s@.len() { (k + 1) * g } else { s@.len() as int },
            ),
        decreases count - i,
    {
        proof {
            assert(i * g < n) by (nonlinear_arith)
                requires
                    i < count,
                    count == n / g + if n % g == 0 { 0int } else { 1int },
                    n == g * (n / g) + n % g,
                    0 <= n % g < g,
                    g > 0,
            ;
            assert((i + 1) * g == i * g + g) by (nonlinear_arith);
        }
        let start = i * g;
        let end = if n - start < g { n } else { start + g };
        let group = crate::permutation::copy_range(chars.as_slice(), start, end);
        r.push(CharGroup(group));
        i = i + 1;
    }
    r
}

/// Joins the groups back into one string.
pub fn string_from_groups(groups: &[CharGroup]) -> (r: String)
    ensures
        r@ == groups@.map_values(|g: CharGroup| g.0@).flatten(),
{
    let mut chars: Vec<char> = Vec::new();
    let mut i: usize = 0;
    while i < groups.len()
        invariant
            0 <= i <= groups@.len(),
            chars@ == groups@.take(i as int).map_values(|g: CharGroup| g.0@).flatten(),
        decreases groups@.len() - i,
    {
        let g = &groups[i];
        let mut j: usize = 0;
        let ghost before = chars@;
        while j < g.0.len()
            invariant
                0 <= j <= g.0@.len(),
                chars@ == before + g.0@.take(j as int),
            decreases g.0@.len() - j,
        {
            chars.push(g.0[j]);
            proof {
                assert(chars@ =~= before + g.0@.take(j + 1));
            }
            j = j + 1;
        }
        proof {
            let m = groups@.take(i + 1).map_values(|g: CharGroup| g.0@);
            assert(m =~= groups@.take(i as int).map_values(|g: CharGroup| g.0@).push(g.0@));
            groups@.take(i as int).map_values(|g: CharGroup| g.0@).lemma_flatten_push(g.0@);
            assert(chars@ =~= before + g.0@);
        }
        i = i + 1;
    }
    proof {
        assert(groups@.take(groups@.len() as int) =~= groups@);
    }
    string_of_chars(chars.as_slice())
}

} // verus!
