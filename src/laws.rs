//! Laws of stacked recipes: decryption undoes encryption, empty input,
//! determinism, and the agreement of one-scalar groups with scalars.

use vstd::prelude::*;
use vstd::utf8::{decode_utf8, encode_utf8, valid_utf8};
use crate::block::{
    gather, kept, lemma_kept, lemma_layout, lemma_padded_len, pad_encrypt, padded_len, unpad_encrypt,
};
use crate::datastructs::{Bit, bits_of, lemma_bits_of_pack, lemma_pack_bits_of, pack_bits};
use crate::permutation::is_perm;
use crate::error::CipherError;
use crate::stacked::{
    AlgoModel, EncryptionStyle, LayerModel, PadApproach, algo_wf, decrypt_map,
    decrypt_obstacle, encrypt_map, group_map, layer_decrypt, layer_encrypt, lemma_algo_perm, perm_of,
    recipe_decrypt, recipe_encrypt, recipe_wf, style_ok,
};

verus! {

/// The decryption map of a layer finds every input position again in its
/// encryption map.
proof fn lemma_map_round_trip(pad: PadApproach, p: Seq<usize>, l: int, c_len: int)
    requires
        is_perm(p),
        l >= 0,
        c_len >= encrypt_map(pad, p, l).len(),
        pad == PadApproach::Unpadding ==> c_len == l,
        pad == PadApproach::Padding ==> c_len % (p.len() as int) == 0,
    ensures
        encrypt_map(pad, p, l).len() == if pad == PadApproach::Padding { padded_len(l, p.len() as int) } else { l },
        decrypt_map(pad, p, c_len, l).len() == l,
        forall|i: int| 0 <= i < l ==> 0 <= #[trigger] decrypt_map(pad, p, c_len, l)[i] < encrypt_map(pad, p, l).len()
            && encrypt_map(pad, p, l)[decrypt_map(pad, p, c_len, l)[i]] == i,
{
    lemma_layout(p, l);
    lemma_kept(p, l);
    lemma_padded_len(l, p.len() as int);
}

/// Gathering by the decryption map undoes gathering by the encryption map.
proof fn lemma_gather_back<T>(s: Seq<T>, e: Seq<int>, d: Seq<int>, t: Seq<T>, f1: T, f2: T)
    requires
        d.len() == s.len(),
        forall|i: int| 0 <= i < s.len() ==> 0 <= #[trigger] d[i] < e.len() && e[d[i]] == i,
        t.len() >= e.len(),
        forall|j: int| 0 <= j < e.len() ==> #[trigger] t[j] == gather(s, e, f1)[j],
    ensures
        gather(t, d, f2) == s,
{
    assert forall|i: int| 0 <= i < s.len() implies #[trigger] gather(t, d, f2)[i] == s[i] by {
        assert(t[d[i]] == gather(s, e, f1)[d[i]]);
    }
    assert(gather(t, d, f2) =~= s);
}

/// Spreading over groups keeps the round trip of the group maps.
proof fn lemma_group_maps(e: Seq<int>, d: Seq<int>, g: int, n: int)
    requires
        g >= 1,
        n >= 0,
        d.len() == n,
        forall|i: int| 0 <= i < n ==> 0 <= #[trigger] d[i] < e.len() && e[d[i]] == i,
    ensures
        group_map(d, g, e.len() as int).len() == n * g,
        forall|q: int| 0 <= q < n * g ==> 0 <= #[trigger] group_map(d, g, e.len() as int)[q] < group_map(e, g, n).len()
            && group_map(e, g, n)[group_map(d, g, e.len() as int)[q]] == q,
{
    let gd = group_map(d, g, e.len() as int);
    let ge = group_map(e, g, n);
    assert(n * g >= 0) by (nonlinear_arith)
        requires n >= 0, g >= 1;
    assert forall|q: int| 0 <= q < n * g implies 0 <= #[trigger] gd[q] < ge.len() && ge[gd[q]] == q by {
        let j = q / g;
        let k = q % g;
        vstd::arithmetic::div_mod::lemma_fundamental_div_mod(q, g);
        vstd::arithmetic::div_mod::lemma_mod_bound(q, g);
        vstd::arithmetic::div_mod::lemma_div_pos_is_pos(q, g);
        assert(j < n) by (nonlinear_arith)
            requires q == g * j + k, 0 <= k, q < n * g, g >= 1;
        let m = d[j];
        assert(0 <= m < e.len());
        assert(gd[q] == m * g + k);
        assert(0 <= m * g + k < e.len() * g) by (nonlinear_arith)
            requires 0 <= m < e.len(), 0 <= k < g;
        vstd::arithmetic::div_mod::lemma_fundamental_div_mod_converse(m * g + k, g, m, k);
        assert(e[m] == j);
        assert(ge[m * g + k] == j * g + k);
        assert(j * g + k == q) by (nonlinear_arith)
            requires q == g * j + k;
    }
}

proof fn lemma_padded_len_8(n: int)
    requires
        n >= 0,
    ensures
        8 * ((n + 7) / 8) == padded_len(n, 8),
{
    vstd::arithmetic::div_mod::lemma_fundamental_div_mod(n, 8);
    vstd::arithmetic::div_mod::lemma_mod_bound(n, 8);
    let q = n / 8;
    let r = n % 8;
    if r == 0 {
        vstd::arithmetic::div_mod::lemma_fundamental_div_mod_converse(n + 7, 8, q, 7);
    } else {
        vstd::arithmetic::div_mod::lemma_fundamental_div_mod_converse(n + 7, 8, q + 1, r - 1);
    }
}

proof fn lemma_byte_round_trip(pad: PadApproach, style: EncryptionStyle, algo: AlgoModel, x: Seq<u8>)
    requires
        algo_wf(algo),
        style == EncryptionStyle::Byte,
        layer_encrypt(pad, style, algo, x) is Ok,
    ensures
        layer_decrypt(
            pad,
            style,
            algo,
            layer_encrypt(pad, style, algo, x)->Ok_0.0,
            layer_encrypt(pad, style, algo, x)->Ok_0.1,
        ) == Ok::<Seq<u8>, CipherError>(x),
{
    let p = perm_of(algo);
    let b = p.len() as int;
    lemma_algo_perm(algo);
    let (t, z) = layer_encrypt(pad, style, algo, x)->Ok_0;
        let n = x.len() as int;
        let e = encrypt_map(pad, p, n);
        lemma_layout(p, n);
        lemma_kept(p, n);
        lemma_padded_len(n, b);
        lemma_map_round_trip(pad, p, n, e.len() as int);
        lemma_padded_len(e.len() as int, b);
        lemma_padded_len(n, b);
        let d = decrypt_map(pad, p, e.len() as int, n);
        lemma_gather_back(x, e, d, z, 0u8, 0u8);
        assert(z == gather(x, e, 0u8));
        assert(t as int == n);
        assert(decrypt_obstacle(pad, p, z.len() as int, t as int) is None);
        assert(gather(z, decrypt_map(pad, p, z.len() as int, t as int), 0u8) == x);
        assert(layer_decrypt(pad, style, algo, t, z) == Ok::<Seq<u8>, CipherError>(x));
}

proof fn lemma_bit_round_trip(pad: PadApproach, style: EncryptionStyle, algo: AlgoModel, x: Seq<u8>)
    requires
        algo_wf(algo),
        style == EncryptionStyle::Bit,
        layer_encrypt(pad, style, algo, x) is Ok,
    ensures
        layer_decrypt(
            pad,
            style,
            algo,
            layer_encrypt(pad, style, algo, x)->Ok_0.0,
            layer_encrypt(pad, style, algo, x)->Ok_0.1,
        ) == Ok::<Seq<u8>, CipherError>(x),
{
    let p = perm_of(algo);
    let b = p.len() as int;
    lemma_algo_perm(algo);
    let (t, z) = layer_encrypt(pad, style, algo, x)->Ok_0;
    let n = 8 * x.len() as int;
    let bits = bits_of(x);
    let e = encrypt_map(pad, p, n);
    let tb = gather(bits, e, Bit(false));
    lemma_layout(p, n);
    lemma_kept(p, n);
    lemma_padded_len(n, b);
    lemma_map_round_trip(pad, p, n, e.len() as int);
    lemma_bits_of_pack(tb);
    lemma_padded_len_8(e.len() as int);
    lemma_padded_len(e.len() as int, 8);
    let n2 = 8 * z.len() as int;
    assert(n2 == padded_len(e.len() as int, 8));
    assert(t as int == n);
    if pad == PadApproach::Unpadding {
        assert(n % 8 == 0) by {
            vstd::arithmetic::div_mod::lemma_mod_multiples_basic(x.len() as int, 8);
        }
        lemma_padded_len(n, 8);
        assert(n2 == n);
        lemma_map_round_trip(pad, p, n, n2);
        let d = decrypt_map(pad, p, n2, n);
        lemma_gather_back(bits, e, d, bits_of(z), Bit(false), Bit(false));
    } else {
        let m = padded_len(n, b);
        assert(e.len() == m);
        let kept_bits = bits_of(z).take(m);
        lemma_map_round_trip(pad, p, n, m);
        let d = decrypt_map(pad, p, m, n);
        lemma_gather_back(bits, e, d, kept_bits, Bit(false), Bit(false));
    }
    lemma_pack_bits_of(x);
}

proof fn lemma_char_round_trip(pad: PadApproach, style: EncryptionStyle, algo: AlgoModel, x: Seq<u8>)
    requires
        algo_wf(algo),
        style == EncryptionStyle::Char,
        layer_encrypt(pad, style, algo, x) is Ok,
    ensures
        layer_decrypt(
            pad,
            style,
            algo,
            layer_encrypt(pad, style, algo, x)->Ok_0.0,
            layer_encrypt(pad, style, algo, x)->Ok_0.1,
        ) == Ok::<Seq<u8>, CipherError>(x),
{
    let p = perm_of(algo);
    let b = p.len() as int;
    lemma_algo_perm(algo);
    let (t, z) = layer_encrypt(pad, style, algo, x)->Ok_0;
        let c = decode_utf8(x);
        let n = c.len() as int;
        let e = encrypt_map(pad, p, n);
        let oc = gather(c, e, '\0');
        vstd::utf8::encode_utf8_valid_utf8(oc);
        vstd::utf8::encode_utf8_decode_utf8(oc);
        vstd::utf8::decode_utf8_encode_utf8(x);
        lemma_layout(p, n);
        lemma_kept(p, n);
        lemma_padded_len(n, b);
        lemma_map_round_trip(pad, p, n, e.len() as int);
        lemma_padded_len(e.len() as int, b);
        lemma_padded_len(n, b);
        let d = decrypt_map(pad, p, e.len() as int, n);
        lemma_gather_back(c, e, d, oc, '\0', '\0');
        assert(layer_decrypt(pad, style, algo, t, z) == Ok::<Seq<u8>, CipherError>(x));
}

proof fn lemma_group_round_trip(pad: PadApproach, style: EncryptionStyle, algo: AlgoModel, x: Seq<u8>)
    requires
        algo_wf(algo),
        style is Group,
        layer_encrypt(pad, style, algo, x) is Ok,
    ensures
        layer_decrypt(
            pad,
            style,
            algo,
            layer_encrypt(pad, style, algo, x)->Ok_0.0,
            layer_encrypt(pad, style, algo, x)->Ok_0.1,
        ) == Ok::<Seq<u8>, CipherError>(x),
{
    let p = perm_of(algo);
    let b = p.len() as int;
    lemma_algo_perm(algo);
    let (t, z) = layer_encrypt(pad, style, algo, x)->Ok_0;
    let g = style->Group_0;
        let c = decode_utf8(x);
        let n = c.len() as int / g as int;
        vstd::arithmetic::div_mod::lemma_fundamental_div_mod(c.len() as int, g as int);
        assert(c.len() == n * g) by (nonlinear_arith)
            requires c.len() == g * n + 0;
        let e = encrypt_map(pad, p, n);
        let gm = group_map(e, g as int, n);
        let oc = gather(c, gm, '\0');
        vstd::utf8::encode_utf8_valid_utf8(oc);
        vstd::utf8::encode_utf8_decode_utf8(oc);
        vstd::utf8::decode_utf8_encode_utf8(x);
        assert(n >= 0);
        lemma_layout(p, n);
        lemma_kept(p, n);
        lemma_padded_len(n, b);
        lemma_map_round_trip(pad, p, n, e.len() as int);
        lemma_padded_len(e.len() as int, b);
        lemma_padded_len(n, b);
        assert(oc.len() == e.len() * g);
        assert(oc.len() as int / g as int == e.len() && oc.len() % (g as nat) == 0) by {
            vstd::arithmetic::div_mod::lemma_fundamental_div_mod_converse(oc.len() as int, g as int, e.len() as int, 0);
        }
        let d = decrypt_map(pad, p, e.len() as int, n);
        lemma_group_maps(e, d, g as int, n);
        let gd = group_map(d, g as int, e.len() as int);
        lemma_gather_back(c, gm, gd, oc, '\0', '\0');
        let pl = padded_len(n, b);
        assert(pl <= usize::MAX) by (nonlinear_arith)
            requires pl * g <= usize::MAX, g >= 1, pl >= 0;
        assert(t as int == n);
        assert(z == encode_utf8(oc));
        assert(decrypt_obstacle(pad, p, e.len() as int, t as int) is None);
        assert(gather(oc, gd, '\0') == c);
        assert(layer_decrypt(pad, style, algo, t, z) == Ok::<Seq<u8>, CipherError>(x));
}

/// One layer: decryption with the emitted token undoes encryption.
pub proof fn lemma_layer_round_trip(pad: PadApproach, style: EncryptionStyle, algo: AlgoModel, x: Seq<u8>)
    requires
        algo_wf(algo),
        layer_encrypt(pad, style, algo, x) is Ok,
    ensures
        layer_decrypt(
            pad,
            style,
            algo,
            layer_encrypt(pad, style, algo, x)->Ok_0.0,
            layer_encrypt(pad, style, algo, x)->Ok_0.1,
        ) == Ok::<Seq<u8>, CipherError>(x),
{
    match style {
        EncryptionStyle::Byte => lemma_byte_round_trip(pad, style, algo, x),
        EncryptionStyle::Bit => lemma_bit_round_trip(pad, style, algo, x),
        EncryptionStyle::Char => lemma_char_round_trip(pad, style, algo, x),
        EncryptionStyle::Group(_) => lemma_group_round_trip(pad, style, algo, x),
    }
}

/// Decrypting with the tokens that encryption emitted restores the input,
/// for every valid recipe and every input that it encrypts.
pub proof fn lemma_round_trip(layers: Seq<LayerModel>, x: Seq<u8>)
    requires
        recipe_wf(layers),
        recipe_encrypt(layers, x) is Ok,
    ensures
        recipe_encrypt(layers, x)->Ok_0.0.len() == layers.len(),
        recipe_decrypt(layers, recipe_encrypt(layers, x)->Ok_0.0, recipe_encrypt(layers, x)->Ok_0.1)
            == Ok::<Seq<u8>, CipherError>(x),
    decreases layers.len(),
{
    if layers.len() > 0 {
        let init = layers.drop_last();
        assert(recipe_wf(init)) by {
            assert forall|i: int| 0 <= i < init.len() implies algo_wf(#[trigger] init[i].2) by {
                assert(init[i] == layers[i]);
            }
        }
        assert(algo_wf(layers.last().2)) by {
            assert(layers.last() == layers[layers.len() - 1]);
        }
        lemma_round_trip(init, x);
        let (t0, y) = recipe_encrypt(init, x)->Ok_0;
        let l = layers.last();
        lemma_layer_round_trip(l.0, l.1, l.2, y);
        let (t, z) = layer_encrypt(l.0, l.1, l.2, y)->Ok_0;
        assert(t0.push(t).drop_last() =~= t0);
        assert(t0.push(t).last() == t);
    }
}

/// Every layer encrypts the empty input to nothing, with token 0.
pub proof fn lemma_empty_layer(pad: PadApproach, style: EncryptionStyle, algo: AlgoModel)
    requires
        algo_wf(algo),
        style_ok(style),
    ensures
        layer_encrypt(pad, style, algo, Seq::empty()) == Ok::<(usize, Seq<u8>), CipherError>((0usize, Seq::empty())),
{
    let p = perm_of(algo);
    let b = p.len() as int;
    lemma_algo_perm(algo);
    lemma_layout(p, 0);
    lemma_kept(p, 0);
    lemma_padded_len(0, b);
    lemma_padded_len(0, 8);
    let e = Seq::<u8>::empty();
    assert(valid_utf8(e)) by {
        vstd::utf8::encode_utf8_valid_utf8(Seq::<char>::empty());
        assert(encode_utf8(Seq::<char>::empty()) =~= e);
    }
    assert(decode_utf8(e) =~= Seq::<char>::empty());
    assert(encode_utf8(Seq::<char>::empty()) =~= e);
    assert(bits_of(e) =~= Seq::<Bit>::empty());
    assert(pack_bits(Seq::<Bit>::empty()) =~= e);
    assert(gather(e, encrypt_map(pad, p, 0), 0u8) =~= e);
    assert(gather(Seq::<Bit>::empty(), encrypt_map(pad, p, 0), Bit(false)) =~= Seq::<Bit>::empty());
    assert(gather(Seq::<char>::empty(), encrypt_map(pad, p, 0), '\0') =~= Seq::<char>::empty());
    if style is Group {
        let g = style->Group_0 as int;
        assert(group_map(encrypt_map(pad, p, 0), g, 0).len() == 0);
        assert(gather(Seq::<char>::empty(), group_map(encrypt_map(pad, p, 0), g, 0), '\0') =~= Seq::<char>::empty());
    }
}

/// The empty input encrypts to the empty ciphertext with one zero token per
/// layer, and decrypts back to the empty input.
pub proof fn lemma_empty_input(layers: Seq<LayerModel>)
    requires
        recipe_wf(layers),
        forall|i: int| 0 <= i < layers.len() ==> style_ok(#[trigger] layers[i].1),
    ensures
        recipe_encrypt(layers, Seq::empty()) == Ok::<(Seq<usize>, Seq<u8>), CipherError>(
            (Seq::new(layers.len(), |i: int| 0usize), Seq::empty()),
        ),
        recipe_decrypt(layers, Seq::new(layers.len(), |i: int| 0usize), Seq::empty())
            == Ok::<Seq<u8>, CipherError>(Seq::empty()),
    decreases layers.len(),
{
    if layers.len() > 0 {
        let init = layers.drop_last();
        assert forall|i: int| 0 <= i < init.len() implies algo_wf(#[trigger] init[i].2) && style_ok(init[i].1) by {
            assert(init[i] == layers[i]);
        }
        assert forall|i: int| 0 <= i < init.len() implies style_ok(#[trigger] init[i].1) by {
            assert(init[i] == layers[i]);
        }
        lemma_empty_input(init);
        let l = layers.last();
        assert(l == layers[layers.len() - 1]);
        lemma_empty_layer(l.0, l.1, l.2);
        assert(Seq::new(init.len(), |i: int| 0usize).push(0usize) =~= Seq::new(layers.len(), |i: int| 0usize));
    } else {
        assert(Seq::new(layers.len(), |i: int| 0usize) =~= Seq::<usize>::empty());
    }
    lemma_round_trip(layers, Seq::empty());
}

/// Encryption and decryption depend on the recipe and their inputs alone.
pub proof fn lemma_deterministic(
    a: Seq<LayerModel>,
    b: Seq<LayerModel>,
    x: Seq<u8>,
    y: Seq<u8>,
    t: Seq<usize>,
    u: Seq<usize>,
)
    requires
        a == b,
        x == y,
        t == u,
    ensures
        recipe_encrypt(a, x) == recipe_encrypt(b, y),
        recipe_decrypt(a, t, x) == recipe_decrypt(b, u, y),
{
}

/// A layer over groups of one scalar behaves exactly as a layer over scalars.
pub proof fn lemma_group_one_is_char(pad: PadApproach, algo: AlgoModel, x: Seq<u8>, token: usize)
    ensures
        layer_encrypt(pad, EncryptionStyle::Group(1), algo, x) == layer_encrypt(pad, EncryptionStyle::Char, algo, x),
        layer_decrypt(pad, EncryptionStyle::Group(1), algo, token, x) == layer_decrypt(
            pad,
            EncryptionStyle::Char,
            algo,
            token,
            x,
        ),
{
    let p = perm_of(algo);
    if valid_utf8(x) {
        let c = decode_utf8(x);
        let n = c.len() as int;
        assert(n / 1 == n && n % 1 == 0);
        assert(padded_len(n, p.len() as int) * 1 == padded_len(n, p.len() as int));
        let e = encrypt_map(pad, p, n);
        assert(gather(c, group_map(e, 1, n), '\0') =~= gather(c, e, '\0')) by {
            assert forall|q: int| 0 <= q < e.len() implies #[trigger] group_map(e, 1, n)[q] == if 0 <= e[q] < n { e[q] } else { n } by {
                assert(q / 1 == q && q % 1 == 0);
            }
        }
        let d = decrypt_map(pad, p, n, token as int);
        assert(gather(c, group_map(d, 1, n), '\0') =~= gather(c, d, '\0')) by {
            assert forall|q: int| 0 <= q < d.len() implies #[trigger] group_map(d, 1, n)[q] == if 0 <= d[q] < n { d[q] } else { n } by {
                assert(q / 1 == q && q % 1 == 0);
            }
        }
    }
}

/// Length laws of one layer: padding rounds the symbol count up to whole
/// blocks, unpadding keeps it; bytes keep their count under unpadding.
pub proof fn lemma_length_laws(pad: PadApproach, style: EncryptionStyle, algo: AlgoModel, x: Seq<u8>)
    requires
        algo_wf(algo),
        layer_encrypt(pad, style, algo, x) is Ok,
    ensures
        ({
            let (t, z) = layer_encrypt(pad, style, algo, x)->Ok_0;
            let b = perm_of(algo).len() as int;
            let symbols = if pad == PadApproach::Padding { padded_len(t as int, b) } else { t as int };
            &&& style == EncryptionStyle::Byte ==> t == x.len() && z.len() == symbols
            &&& style == EncryptionStyle::Bit ==> t == 8 * x.len() && z.len() == padded_len(symbols, 8) / 8
            &&& style == EncryptionStyle::Char ==> t == decode_utf8(x).len() && decode_utf8(z).len() == symbols
            &&& style is Group ==> t * style->Group_0 == decode_utf8(x).len() && decode_utf8(z).len()
                == symbols * style->Group_0
            &&& pad == PadApproach::Unpadding && style == EncryptionStyle::Byte ==> z.len() == x.len()
        }),
{
    let p = perm_of(algo);
    let b = p.len() as int;
    lemma_algo_perm(algo);
    let (t, z) = layer_encrypt(pad, style, algo, x)->Ok_0;
    lemma_layout(p, t as int);
    lemma_kept(p, t as int);
    match style {
        EncryptionStyle::Bit => {
            let e = encrypt_map(pad, p, t as int);
            lemma_padded_len_8(e.len() as int);
            vstd::arithmetic::div_mod::lemma_fundamental_div_mod_converse(padded_len(e.len() as int, 8), 8, (e.len() as int + 7) / 8, 0);
        },
        EncryptionStyle::Char => {
            let e = encrypt_map(pad, p, t as int);
            vstd::utf8::encode_utf8_decode_utf8(gather(decode_utf8(x), e, '\0'));
        },
        EncryptionStyle::Group(g) => {
            let c = decode_utf8(x);
            let n = c.len() as int / g as int;
            vstd::arithmetic::div_mod::lemma_fundamental_div_mod(c.len() as int, g as int);
            assert(c.len() == n * g) by (nonlinear_arith)
                requires c.len() == g * n + 0;
            let e = encrypt_map(pad, p, n);
            vstd::utf8::encode_utf8_decode_utf8(gather(c, group_map(e, g as int, n), '\0'));
            assert(n >= 0);
            let pl = padded_len(n, b);
            lemma_padded_len(n, b);
            assert(pl <= usize::MAX) by (nonlinear_arith)
                requires pl * g <= usize::MAX, g >= 1, pl >= 0;
            assert(t as int == n);
        },
        _ => {},
    }
}

/// The width of a scalar's UTF-8 encoding, added to a running total.
pub open spec fn add_width() -> spec_fn(char, int) -> int {
    |c: char, total: int| vstd::utf8::encode_scalar(c as u32).len() + total
}

proof fn lemma_encoded_len(s: Seq<char>)
    ensures
        encode_utf8(s).len() == s.fold_right_alt(add_width(), 0),
    decreases s.len(),
{
    if s.len() > 0 {
        assert(s.subrange(1, s.len() as int) =~= s.drop_first());
        lemma_encoded_len(s.drop_first());
    }
}

pub open spec fn is_hit(sigma: Seq<int>, x: int) -> bool {
    exists|i: int| 0 <= i < sigma.len() && #[trigger] sigma[i] == x
}

/// Reading `s` through a bijection of its positions keeps its multiset.
proof fn lemma_reindex_multiset<A>(s: Seq<A>, sigma: Seq<int>)
    requires
        sigma.len() == s.len(),
        forall|i: int| 0 <= i < sigma.len() ==> 0 <= #[trigger] sigma[i] < s.len(),
        forall|i: int, j: int| 0 <= i < sigma.len() && 0 <= j < sigma.len() && i != j ==> #[trigger] sigma[i] != #[trigger] sigma[j],
        forall|x: int| 0 <= x < s.len() ==> #[trigger] is_hit(sigma, x),
    ensures
        Seq::new(s.len(), |i: int| s[sigma[i]]).to_multiset() == s.to_multiset(),
    decreases s.len(),
{
    broadcast use vstd::seq_lib::group_to_multiset_ensures;

    let t = Seq::new(s.len(), |i: int| s[sigma[i]]);
    if s.len() > 0 {
        let n = s.len() - 1;
        assert(is_hit(sigma, n));
        let k = choose|i: int| 0 <= i < sigma.len() && #[trigger] sigma[i] == n;
        let s2 = s.drop_last();
        let sigma2 = sigma.remove(k);
        assert forall|i: int| 0 <= i < sigma2.len() implies 0 <= #[trigger] sigma2[i] < s2.len() by {
            let i2 = if i < k { i } else { i + 1 };
            assert(sigma2[i] == sigma[i2]);
            assert(sigma[i2] != sigma[k]);
        }
        assert forall|i: int, j: int| 0 <= i < sigma2.len() && 0 <= j < sigma2.len() && i != j implies #[trigger] sigma2[i] != #[trigger] sigma2[j] by {
            let i2 = if i < k { i } else { i + 1 };
            let j2 = if j < k { j } else { j + 1 };
            assert(sigma[i2] != sigma[j2]);
        }
        assert forall|x: int| 0 <= x < s2.len() implies #[trigger] is_hit(sigma2, x) by {
            assert(is_hit(sigma, x));
            let i = choose|i: int| 0 <= i < sigma.len() && #[trigger] sigma[i] == x;
            assert(i != k);
            if i < k {
                assert(sigma2[i] == x);
            } else {
                assert(sigma2[i - 1] == x);
            }
        }
        lemma_reindex_multiset(s2, sigma2);
        let t2 = Seq::new(s2.len(), |i: int| s2[sigma2[i]]);
        assert(t2 =~= t.remove(k)) by {
            assert forall|i: int| 0 <= i < t2.len() implies t2[i] == t.remove(k)[i] by {
                let i2 = if i < k { i } else { i + 1 };
                assert(sigma2[i] == sigma[i2]);
            }
        }
        assert(t[k] == s.last());
        assert(s2.push(s.last()) =~= s);
        assert(t.to_multiset() =~= t.remove(k).to_multiset().insert(t[k]));
    }
}

/// Under unpadding, scalar and group layers emit a rearrangement of their
/// scalars, so the byte length is kept as well.
pub proof fn lemma_unpadding_keeps_bytes(style: EncryptionStyle, algo: AlgoModel, x: Seq<u8>)
    requires
        algo_wf(algo),
        style == EncryptionStyle::Char || style is Group,
        layer_encrypt(PadApproach::Unpadding, style, algo, x) is Ok,
    ensures
        layer_encrypt(PadApproach::Unpadding, style, algo, x)->Ok_0.1.len() == x.len(),
{
    let p = perm_of(algo);
    lemma_algo_perm(algo);
    let c = decode_utf8(x);
    let g: int = match style {
        EncryptionStyle::Group(g) => g as int,
        _ => 1,
    };
    let cl = c.len() as int;
    let n = cl / g;
    vstd::arithmetic::div_mod::lemma_fundamental_div_mod(cl, g);
    assert(cl == n * g) by {
        if style is Group {
            assert(cl % g == 0);
            assert(cl == n * g) by (nonlinear_arith)
                requires cl == g * n + cl % g, cl % g == 0;
        }
    }
    assert(n >= 0);
    let e = encrypt_map(PadApproach::Unpadding, p, n);
    lemma_kept(p, n);
    let m = if style is Group { group_map(e, g, n) } else { e };
    // the map is a bijection on the scalar positions
    assert(m.len() == c.len()) by {
        if style is Group {
            assert(m.len() == e.len() * g);
        }
    }
    assert(forall|q: int| 0 <= q < m.len() ==> 0 <= #[trigger] m[q] < c.len()) by {
        assert forall|q: int| 0 <= q < m.len() implies 0 <= #[trigger] m[q] < c.len() by {
            if style is Group {
                let j = q / g;
                let k = q % g;
                vstd::arithmetic::div_mod::lemma_fundamental_div_mod(q, g);
                vstd::arithmetic::div_mod::lemma_mod_bound(q, g);
                vstd::arithmetic::div_mod::lemma_div_pos_is_pos(q, g);
                assert(j < n) by (nonlinear_arith)
                    requires q == g * j + k, 0 <= k, q < n * g, g >= 1;
                assert(0 <= e[j] < n);
                assert(0 <= e[j] * g + k < n * g) by (nonlinear_arith)
                    requires 0 <= e[j] < n, 0 <= k < g;
            }
        }
    }
    assert forall|a: int, b: int| 0 <= a < m.len() && 0 <= b < m.len() && a != b implies #[trigger] m[a] != #[trigger] m[b] by {
        if style is Group {
            let ja = a / g;
            let ka = a % g;
            let jb = b / g;
            let kb = b % g;
            vstd::arithmetic::div_mod::lemma_fundamental_div_mod(a, g);
            vstd::arithmetic::div_mod::lemma_fundamental_div_mod(b, g);
            vstd::arithmetic::div_mod::lemma_mod_bound(a, g);
            vstd::arithmetic::div_mod::lemma_mod_bound(b, g);
            vstd::arithmetic::div_mod::lemma_div_pos_is_pos(a, g);
            vstd::arithmetic::div_mod::lemma_div_pos_is_pos(b, g);
            assert(ja < n) by (nonlinear_arith)
                requires a == g * ja + ka, 0 <= ka, a < n * g, g >= 1;
            assert(jb < n) by (nonlinear_arith)
                requires b == g * jb + kb, 0 <= kb, b < n * g, g >= 1;
            if m[a] == m[b] {
                vstd::arithmetic::div_mod::lemma_fundamental_div_mod_converse(m[a], g, e[ja], ka);
                vstd::arithmetic::div_mod::lemma_fundamental_div_mod_converse(m[b], g, e[jb], kb);
                assert(ja == jb);
            }
        } else {
            assert(e[a] != e[b]);
        }
    }
    assert forall|x2: int| 0 <= x2 < c.len() implies #[trigger] is_hit(m, x2) by {
        if style is Group {
            let j = x2 / g;
            let k = x2 % g;
            vstd::arithmetic::div_mod::lemma_fundamental_div_mod(x2, g);
            vstd::arithmetic::div_mod::lemma_mod_bound(x2, g);
            vstd::arithmetic::div_mod::lemma_div_pos_is_pos(x2, g);
            assert(j < n) by (nonlinear_arith)
                requires x2 == g * j + k, 0 <= k, x2 < n * g, g >= 1;
            let t = crate::block::rank(p, n, crate::block::dst_pos(p, j));
            assert(e[t] == j);
            assert(0 <= t < n);
            assert(e.len() == n);
            assert(m.len() == e.len() * g);
            let i = t * g + k;
            assert(0 <= i < m.len()) by (nonlinear_arith)
                requires 0 <= t < n, 0 <= k < g, m.len() == e.len() * g, e.len() == n, i == t * g + k;
            vstd::arithmetic::div_mod::lemma_fundamental_div_mod_converse(i, g, t, k);
            assert(m[i] == j * g + k);
            assert(m[i] == x2) by (nonlinear_arith)
                requires m[i] == j * g + k, x2 == g * j + k;
        } else {
            let t = crate::block::rank(p, n, crate::block::dst_pos(p, x2));
            assert(m[t] == x2);
        }
    }
    let oc = gather(c, m, '\0');
    assert(oc =~= Seq::new(c.len(), |i: int| c[m[i]]));
    lemma_reindex_multiset(c, m);
    assert(vstd::seq_lib::commutative_foldr(add_width())) by {
        assert forall|a: char, b: char, v: int| #[trigger] add_width()(a, add_width()(b, v)) == add_width()(b, add_width()(a, v)) by {}
    }
    vstd::seq_lib::lemma_fold_right_permutation(oc, c, add_width(), 0);
    oc.lemma_fold_right_alt(add_width(), 0);
    c.lemma_fold_right_alt(add_width(), 0);
    lemma_encoded_len(oc);
    lemma_encoded_len(c);
    vstd::utf8::decode_utf8_encode_utf8(x);
    if style is Group {
        assert(g * 1 == g);
        let pl = padded_len(n, p.len() as int);
        lemma_padded_len(n, p.len() as int);
    }
}

/// `padded_len` is `l` rounded up to whole blocks: `⌈l/b⌉·b`.
pub proof fn lemma_padded_len_formula(l: int, b: int)
    requires
        l >= 0,
        b > 0,
    ensures
        padded_len(l, b) == ((l + b - 1) / b) * b,
{
    vstd::arithmetic::div_mod::lemma_fundamental_div_mod(l, b);
    vstd::arithmetic::div_mod::lemma_mod_bound(l, b);
    let q = l / b;
    let r = l % b;
    if r == 0 {
        assert(l + b - 1 == q * b + (b - 1)) by (nonlinear_arith)
            requires l == b * q + r, r == 0;
        vstd::arithmetic::div_mod::lemma_fundamental_div_mod_converse(l + b - 1, b, q, b - 1);
        assert(l == q * b) by (nonlinear_arith)
            requires l == b * q + r, r == 0;
    } else {
        assert(l + b - 1 == (q + 1) * b + (r - 1)) by (nonlinear_arith)
            requires l == b * q + r;
        vstd::arithmetic::div_mod::lemma_fundamental_div_mod_converse(l + b - 1, b, q + 1, r - 1);
        assert(l + (b - r) == (q + 1) * b) by (nonlinear_arith)
            requires l == b * q + r;
    }
}

/// Length laws of one block permutation: padding gives `⌈L/B⌉·B` symbols;
/// unpadding gives a rearrangement of its input, the same symbols in
/// another order.
pub proof fn lemma_block_length_laws<T>(p: Seq<usize>, s: Seq<T>, fill: T)
    requires
        is_perm(p),
    ensures
        pad_encrypt(p, s, fill).len() == ((s.len() + p.len() - 1) / (p.len() as int)) * p.len(),
        unpad_encrypt(p, s).len() == s.len(),
        unpad_encrypt(p, s).to_multiset() == s.to_multiset(),
{
    let l = s.len() as int;
    lemma_layout(p, l);
    lemma_padded_len_formula(l, p.len() as int);
    lemma_kept(p, l);
    let k = kept(p, l);
    assert forall|x: int| 0 <= x < s.len() implies #[trigger] is_hit(k, x) by {
        let t = crate::block::rank(p, l, crate::block::dst_pos(p, x));
        assert(k[t] == x);
    }
    lemma_reindex_multiset(s, k);
    assert(unpad_encrypt(p, s) =~= Seq::new(s.len(), |i: int| s[k[i]]));
}

} // verus!
