//! The textual form of a recipe: a stream of tokens, each followed by one
//! space.
//!
//! ```text
//! recipe     := count layer*
//! layer      := pad_tag style_tag transposer
//! pad_tag    := "padding" | "unpadding"
//! style_tag  := "bit" | "byte" | "char" | "group" uint
//! transposer := "simple" array
//!             | "rail" columns rows
//!             | "vertical" columns rows "simple" array
//! array      := length uint*
//! ```

use vstd::prelude::*;
use crate::encryption::Encryption;
use crate::error::CipherError;
use crate::permutation::{SimplePermutation, is_perm};
use crate::rail_fence::RailFenceCypher;
use crate::stacked::{
    AlgoModel, Algorithm, EncryptionStyle, IntoAlgorithm, LayerModel, PadApproach, StackedCypher,
    algo_wf,
};
use crate::stacked::{recipe_encrypt, recipe_wf, style_ok};
use crate::vertical::{VerticalPermutation, vertical_ok};

verus! {

pub open spec fn space() -> u8 {
    ' ' as u8
}

/// The bytes of an ASCII word.
pub open spec fn word(w: Seq<char>) -> Seq<u8> {
    w.map_values(|c: char| c as u8)
}

/// A word followed by its separating space.
pub open spec fn tag_text(w: Seq<char>) -> Seq<u8> {
    word(w).push(space())
}

pub open spec fn w_padding() -> Seq<char> {
    seq!['p', 'a', 'd', 'd', 'i', 'n', 'g']
}

pub open spec fn w_unpadding() -> Seq<char> {
    seq!['u', 'n', 'p', 'a', 'd', 'd', 'i', 'n', 'g']
}

pub open spec fn w_bit() -> Seq<char> {
    seq!['b', 'i', 't']
}

pub open spec fn w_byte() -> Seq<char> {
    seq!['b', 'y', 't', 'e']
}

pub open spec fn w_char() -> Seq<char> {
    seq!['c', 'h', 'a', 'r']
}

pub open spec fn w_group() -> Seq<char> {
    seq!['g', 'r', 'o', 'u', 'p']
}

pub open spec fn w_simple() -> Seq<char> {
    seq!['s', 'i', 'm', 'p', 'l', 'e']
}

pub open spec fn w_rail() -> Seq<char> {
    seq!['r', 'a', 'i', 'l']
}

pub open spec fn w_vertical() -> Seq<char> {
    seq!['v', 'e', 'r', 't', 'i', 'c', 'a', 'l']
}

/// The decimal digits of `n`, most significant first.
pub open spec fn decimal(n: nat) -> Seq<u8>
    decreases n,
{
    if n < 10 {
        seq![(n + 48) as u8]
    } else {
        decimal(n / 10).push((n % 10 + 48) as u8)
    }
}

pub open spec fn number_text(n: nat) -> Seq<u8> {
    decimal(n).push(space())
}

pub open spec fn numbers_text(a: Seq<usize>) -> Seq<u8>
    decreases a.len(),
{
    if a.len() == 0 {
        Seq::empty()
    } else {
        numbers_text(a.drop_last()) + number_text(a.last() as nat)
    }
}

/// An array: its length, then its entries.
pub open spec fn array_text(a: Seq<usize>) -> Seq<u8> {
    number_text(a.len()) + numbers_text(a)
}

pub open spec fn pad_text(p: PadApproach) -> Seq<u8> {
    match p {
        PadApproach::Padding => tag_text(w_padding()),
        PadApproach::Unpadding => tag_text(w_unpadding()),
    }
}

pub open spec fn style_text(s: EncryptionStyle) -> Seq<u8> {
    match s {
        EncryptionStyle::Bit => tag_text(w_bit()),
        EncryptionStyle::Byte => tag_text(w_byte()),
        EncryptionStyle::Char => tag_text(w_char()),
        EncryptionStyle::Group(g) => tag_text(w_group()) + number_text(g as nat),
    }
}

/// A transposer; rail fence and vertical write columns before rows.
pub open spec fn algo_text(m: AlgoModel) -> Seq<u8> {
    match m {
        AlgoModel::Simple(p) => tag_text(w_simple()) + array_text(p),
        AlgoModel::Rail(r, c) => tag_text(w_rail()) + number_text(c as nat) + number_text(r as nat),
        AlgoModel::Vertical(r, c, pi) => tag_text(w_vertical()) + number_text(c as nat) + number_text(
            r as nat,
        ) + tag_text(w_simple()) + array_text(pi),
    }
}

pub open spec fn layer_text(l: LayerModel) -> Seq<u8> {
    pad_text(l.0) + style_text(l.1) + algo_text(l.2)
}

pub open spec fn layers_text(ls: Seq<LayerModel>) -> Seq<u8>
    decreases ls.len(),
{
    if ls.len() == 0 {
        Seq::empty()
    } else {
        layers_text(ls.drop_last()) + layer_text(ls.last())
    }
}

/// The wire form of a recipe: its layer count, then its layers.
pub open spec fn recipe_text(ls: Seq<LayerModel>) -> Seq<u8> {
    number_text(ls.len()) + layers_text(ls)
}

/// The next token of `s` and what follows its separating space.
pub open spec fn split_token(s: Seq<u8>) -> (Seq<u8>, Seq<u8>)
    decreases s.len(),
{
    if s.len() == 0 {
        (s, s)
    } else if s[0] == space() {
        (Seq::empty(), s.drop_first())
    } else {
        let (t, r) = split_token(s.drop_first());
        (seq![s[0]] + t, r)
    }
}

pub open spec fn is_digit(b: u8) -> bool {
    48 <= b <= 57
}

pub open spec fn all_digits(t: Seq<u8>) -> bool {
    forall|i: int| 0 <= i < t.len() ==> is_digit(#[trigger] t[i])
}

/// The value of a string of decimal digits.
pub open spec fn digits_value(t: Seq<u8>) -> nat
    decreases t.len(),
{
    if t.len() == 0 {
        0
    } else {
        digits_value(t.drop_last()) * 10 + (t.last() - 48) as nat
    }
}

pub open spec fn parse_number(s: Seq<u8>) -> Option<(usize, Seq<u8>)> {
    let (t, r) = split_token(s);
    if t.len() > 0 && all_digits(t) && digits_value(t) <= usize::MAX {
        Some((digits_value(t) as usize, r))
    } else {
        None
    }
}

pub open spec fn parse_numbers(s: Seq<u8>, k: nat) -> Option<(Seq<usize>, Seq<u8>)>
    decreases k,
{
    if k == 0 {
        Some((Seq::empty(), s))
    } else {
        match parse_numbers(s, (k - 1) as nat) {
            None => None,
            Some((v, r)) => match parse_number(r) {
                None => None,
                Some((x, r2)) => Some((v.push(x), r2)),
            },
        }
    }
}

pub open spec fn parse_array(s: Seq<u8>) -> Option<(Seq<usize>, Seq<u8>)> {
    match parse_number(s) {
        None => None,
        Some((n, r)) => parse_numbers(r, n as nat),
    }
}

pub open spec fn parse_pad(s: Seq<u8>) -> Option<(PadApproach, Seq<u8>)> {
    let (t, r) = split_token(s);
    if t == word(w_padding()) {
        Some((PadApproach::Padding, r))
    } else if t == word(w_unpadding()) {
        Some((PadApproach::Unpadding, r))
    } else {
        None
    }
}

pub open spec fn parse_style(s: Seq<u8>) -> Option<(EncryptionStyle, Seq<u8>)> {
    let (t, r) = split_token(s);
    if t == word(w_bit()) {
        Some((EncryptionStyle::Bit, r))
    } else if t == word(w_byte()) {
        Some((EncryptionStyle::Byte, r))
    } else if t == word(w_char()) {
        Some((EncryptionStyle::Char, r))
    } else if t == word(w_group()) {
        match parse_number(r) {
            Some((g, r2)) => if g >= 1 {
                Some((EncryptionStyle::Group(g), r2))
            } else {
                None
            },
            None => None,
        }
    } else {
        None
    }
}

pub open spec fn parse_algo(s: Seq<u8>) -> Option<(AlgoModel, Seq<u8>)> {
    let (t, r) = split_token(s);
    if t == word(w_simple()) {
        match parse_array(r) {
            Some((p, r2)) => if is_perm(p) {
                Some((AlgoModel::Simple(p), r2))
            } else {
                None
            },
            None => None,
        }
    } else if t == word(w_rail()) {
        match parse_number(r) {
            None => None,
            Some((c, r2)) => match parse_number(r2) {
                None => None,
                Some((rows, r3)) => if 1 <= rows < c {
                    Some((AlgoModel::Rail(rows, c), r3))
                } else {
                    None
                },
            },
        }
    } else if t == word(w_vertical()) {
        match parse_number(r) {
            None => None,
            Some((c, r2)) => match parse_number(r2) {
                None => None,
                Some((rows, r3)) => {
                    let (t2, r4) = split_token(r3);
                    if t2 != word(w_simple()) {
                        None
                    } else {
                        match parse_array(r4) {
                            None => None,
                            Some((pi, r5)) => if vertical_ok(rows as int, c as int, pi) {
                                Some((AlgoModel::Vertical(rows, c, pi), r5))
                            } else {
                                None
                            },
                        }
                    }
                },
            },
        }
    } else {
        None
    }
}

pub open spec fn parse_layer(s: Seq<u8>) -> Option<(LayerModel, Seq<u8>)> {
    match parse_pad(s) {
        None => None,
        Some((p, r)) => match parse_style(r) {
            None => None,
            Some((st, r2)) => match parse_algo(r2) {
                None => None,
                Some((a, r3)) => Some(((p, st, a), r3)),
            },
        },
    }
}

pub open spec fn parse_layers(s: Seq<u8>, k: nat) -> Option<(Seq<LayerModel>, Seq<u8>)>
    decreases k,
{
    if k == 0 {
        Some((Seq::empty(), s))
    } else {
        match parse_layers(s, (k - 1) as nat) {
            None => None,
            Some((v, r)) => match parse_layer(r) {
                None => None,
                Some((l, r2)) => Some((v.push(l), r2)),
            },
        }
    }
}

/// Reads a recipe from the front of `s`, returning it and what follows.
pub open spec fn parse_recipe(s: Seq<u8>) -> Option<(Seq<LayerModel>, Seq<u8>)> {
    match parse_number(s) {
        None => None,
        Some((n, r)) => parse_layers(r, n as nat),
    }
}

// ---- lemmas on the grammar ----

pub open spec fn no_space(t: Seq<u8>) -> bool {
    forall|i: int| 0 <= i < t.len() ==> #[trigger] t[i] != space()
}

/// A token without spaces is read back whole, with the rest after its space.
pub proof fn lemma_split_token(t: Seq<u8>, rest: Seq<u8>)
    requires
        no_space(t),
    ensures
        split_token(t.push(space()) + rest) == (t, rest),
    decreases t.len(),
{
    let s = t.push(space()) + rest;
    if t.len() == 0 {
        assert(s[0] == space());
        assert(s.drop_first() =~= rest);
    } else {
        let t2 = t.drop_first();
        assert(s.drop_first() =~= t2.push(space()) + rest);
        lemma_split_token(t2, rest);
        assert(seq![t[0]] + t2 =~= t);
    }
}

pub(crate) proof fn lemma_decimal(n: nat)
    ensures
        decimal(n).len() > 0,
        all_digits(decimal(n)),
        no_space(decimal(n)),
        digits_value(decimal(n)) == n,
    decreases n,
{
    if n >= 10 {
        lemma_decimal(n / 10);
        let d = decimal(n);
        assert(d.drop_last() =~= decimal(n / 10));
        vstd::arithmetic::div_mod::lemma_fundamental_div_mod(n as int, 10);
        assert(d.last() == (n % 10 + 48) as u8);
        assert((d.last() - 48) as nat == n % 10);
        assert(digits_value(d) == (n / 10) * 10 + n % 10);
    } else {
        let d = decimal(n);
        assert(d.drop_last() =~= Seq::<u8>::empty());
        assert(digits_value(d.drop_last()) == 0);
        assert(d.last() == (n + 48) as u8);
    }
}

pub proof fn lemma_parse_number(n: nat, rest: Seq<u8>)
    requires
        n <= usize::MAX,
    ensures
        parse_number(number_text(n) + rest) == Some::<(usize, Seq<u8>)>((n as usize, rest)),
{
    lemma_decimal(n);
    lemma_split_token(decimal(n), rest);
}

proof fn lemma_parse_numbers(a: Seq<usize>, rest: Seq<u8>)
    ensures
        parse_numbers(numbers_text(a) + rest, a.len()) == Some::<(Seq<usize>, Seq<u8>)>((a, rest)),
    decreases a.len(),
{
    if a.len() > 0 {
        let init = a.drop_last();
        let tail = number_text(a.last() as nat) + rest;
        assert(numbers_text(a) + rest =~= numbers_text(init) + tail);
        lemma_parse_numbers(init, tail);
        lemma_parse_number(a.last() as nat, rest);
        assert(init.push(a.last()) =~= a);
    }
}

proof fn lemma_parse_array(a: Seq<usize>, rest: Seq<u8>)
    requires
        a.len() <= usize::MAX,
    ensures
        parse_array(array_text(a) + rest) == Some::<(Seq<usize>, Seq<u8>)>((a, rest)),
{
    assert(array_text(a) + rest =~= number_text(a.len()) + (numbers_text(a) + rest));
    lemma_parse_number(a.len(), numbers_text(a) + rest);
    lemma_parse_numbers(a, rest);
}

pub(crate) proof fn lemma_tag(w: Seq<char>, rest: Seq<u8>)
    requires
        forall|i: int| 0 <= i < w.len() ==> 'a' <= #[trigger] w[i] <= 'z',
    ensures
        split_token(tag_text(w) + rest) == (word(w), rest),
{
    assert forall|i: int| 0 <= i < word(w).len() implies #[trigger] word(w)[i] != space() by {
        assert(word(w)[i] == w[i] as u8);
    }
    lemma_split_token(word(w), rest);
}

proof fn lemma_words_differ()
    ensures
        word(w_padding()) != word(w_unpadding()),
        word(w_bit()) != word(w_byte()),
        word(w_bit()) != word(w_char()),
        word(w_bit()) != word(w_group()),
        word(w_byte()) != word(w_char()),
        word(w_byte()) != word(w_group()),
        word(w_char()) != word(w_group()),
        word(w_simple()) != word(w_rail()),
        word(w_simple()) != word(w_vertical()),
        word(w_rail()) != word(w_vertical()),
{
    assert(word(w_byte())[0] != word(w_char())[0]);
    assert(word(w_padding()).len() != word(w_unpadding()).len());
    assert(word(w_bit()).len() != word(w_byte()).len());
    assert(word(w_bit()).len() != word(w_char()).len());
    assert(word(w_bit()).len() != word(w_group()).len());
    assert(word(w_byte()).len() != word(w_group()).len());
    assert(word(w_char()).len() != word(w_group()).len());
    assert(word(w_simple()).len() != word(w_rail()).len());
    assert(word(w_simple()).len() != word(w_vertical()).len());
    assert(word(w_rail()).len() != word(w_vertical()).len());
}

proof fn lemma_parse_pad(p: PadApproach, rest: Seq<u8>)
    ensures
        parse_pad(pad_text(p) + rest) == Some::<(PadApproach, Seq<u8>)>((p, rest)),
{
    lemma_words_differ();
    match p {
        PadApproach::Padding => lemma_tag(w_padding(), rest),
        PadApproach::Unpadding => lemma_tag(w_unpadding(), rest),
    }
}

proof fn lemma_parse_style(st: EncryptionStyle, rest: Seq<u8>)
    requires
        st is Group ==> st->Group_0 >= 1,
    ensures
        parse_style(style_text(st) + rest) == Some::<(EncryptionStyle, Seq<u8>)>((st, rest)),
{
    lemma_words_differ();
    match st {
        EncryptionStyle::Bit => lemma_tag(w_bit(), rest),
        EncryptionStyle::Byte => lemma_tag(w_byte(), rest),
        EncryptionStyle::Char => lemma_tag(w_char(), rest),
        EncryptionStyle::Group(g) => {
            assert(style_text(st) + rest =~= tag_text(w_group()) + (number_text(g as nat) + rest));
            lemma_tag(w_group(), number_text(g as nat) + rest);
            lemma_parse_number(g as nat, rest);
        },
    }
}

proof fn lemma_parse_algo(a: AlgoModel, rest: Seq<u8>)
    requires
        algo_wf(a),
    ensures
        parse_algo(algo_text(a) + rest) == Some::<(AlgoModel, Seq<u8>)>((a, rest)),
{
    lemma_words_differ();
    match a {
        AlgoModel::Simple(pm) => {
            assert(algo_text(a) + rest =~= tag_text(w_simple()) + (array_text(pm) + rest));
            lemma_tag(w_simple(), array_text(pm) + rest);
            lemma_parse_array(pm, rest);
        },
        AlgoModel::Rail(r, c) => {
            let x1 = number_text(c as nat) + (number_text(r as nat) + rest);
            assert(algo_text(a) + rest =~= tag_text(w_rail()) + x1);
            lemma_tag(w_rail(), x1);
            lemma_parse_number(c as nat, number_text(r as nat) + rest);
            lemma_parse_number(r as nat, rest);
        },
        AlgoModel::Vertical(r, c, pi) => {
            let x3 = tag_text(w_simple()) + (array_text(pi) + rest);
            let x2 = number_text(r as nat) + x3;
            let x1 = number_text(c as nat) + x2;
            assert(algo_text(a) + rest =~= tag_text(w_vertical()) + x1);
            lemma_tag(w_vertical(), x1);
            lemma_parse_number(c as nat, x2);
            lemma_parse_number(r as nat, x3);
            lemma_tag(w_simple(), array_text(pi) + rest);
            lemma_parse_array(pi, rest);
        },
    }
}

proof fn lemma_parse_layer(l: LayerModel, rest: Seq<u8>)
    requires
        algo_wf(l.2),
        l.1 is Group ==> l.1->Group_0 >= 1,
    ensures
        parse_layer(layer_text(l) + rest) == Some::<(LayerModel, Seq<u8>)>((l, rest)),
{
    let (p, st, a) = l;
    let r2 = algo_text(a) + rest;
    let r1 = style_text(st) + r2;
    assert(layer_text(l) + rest =~= pad_text(p) + r1);
    lemma_parse_pad(p, r1);
    lemma_parse_style(st, r2);
    lemma_parse_algo(a, rest);
}

proof fn lemma_parse_layers(ls: Seq<LayerModel>, rest: Seq<u8>)
    requires
        forall|i: int| 0 <= i < ls.len() ==> algo_wf(#[trigger] ls[i].2),
        forall|i: int| 0 <= i < ls.len() ==> (#[trigger] ls[i].1 is Group ==> ls[i].1->Group_0 >= 1),
    ensures
        parse_layers(layers_text(ls) + rest, ls.len()) == Some::<(Seq<LayerModel>, Seq<u8>)>((ls, rest)),
    decreases ls.len(),
{
    if ls.len() > 0 {
        let init = ls.drop_last();
        let tail = layer_text(ls.last()) + rest;
        assert(layers_text(ls) + rest =~= layers_text(init) + tail);
        assert forall|i: int| 0 <= i < init.len() implies algo_wf(#[trigger] init[i].2) by {
            assert(init[i] == ls[i]);
        }
        assert forall|i: int| 0 <= i < init.len() && #[trigger] init[i].1 is Group implies init[i].1->Group_0 >= 1 by {
            assert(init[i] == ls[i]);
        }
        lemma_parse_layers(init, tail);
        assert(ls.last() == ls[ls.len() - 1]);
        lemma_parse_layer(ls.last(), rest);
        assert(init.push(ls.last()) =~= ls);
    }
}

/// Reading the wire form of a valid recipe gives the recipe back, and
/// leaves whatever followed it.
pub proof fn lemma_text_round_trip(ls: Seq<LayerModel>, rest: Seq<u8>)
    requires
        ls.len() <= usize::MAX,
        forall|i: int| 0 <= i < ls.len() ==> algo_wf(#[trigger] ls[i].2),
        forall|i: int| 0 <= i < ls.len() ==> (#[trigger] ls[i].1 is Group ==> ls[i].1->Group_0 >= 1),
    ensures
        parse_recipe(recipe_text(ls) + rest) == Some::<(Seq<LayerModel>, Seq<u8>)>((ls, rest)),
{
    assert(recipe_text(ls) + rest =~= number_text(ls.len()) + (layers_text(ls) + rest));
    lemma_parse_number(ls.len(), layers_text(ls) + rest);
    lemma_parse_layers(ls, rest);
}

/// What is written is read back as the same recipe, which then encrypts
/// every input exactly as the recipe that was written.
pub proof fn lemma_serializer_round_trip(ls: Seq<LayerModel>, x: Seq<u8>)
    requires
        recipe_wf(ls),
        ls.len() <= usize::MAX,
        forall|i: int| 0 <= i < ls.len() ==> style_ok(#[trigger] ls[i].1),
    ensures
        parse_recipe(recipe_text(ls)) == Some::<(Seq<LayerModel>, Seq<u8>)>((ls, Seq::empty())),
        recipe_encrypt(parse_recipe(recipe_text(ls))->Some_0.0, x) == recipe_encrypt(ls, x),
{
    assert forall|i: int| 0 <= i < ls.len() implies algo_wf(#[trigger] ls[i].2) by {}
    assert forall|i: int| 0 <= i < ls.len() && #[trigger] ls[i].1 is Group implies ls[i].1->Group_0 >= 1 by {
        assert(style_ok(ls[i].1));
    }
    lemma_text_round_trip(ls, Seq::empty());
    assert(recipe_text(ls) + Seq::<u8>::empty() =~= recipe_text(ls));
}

// ---- writing ----

fn append_bytes(buf: &mut Vec<u8>, bytes: &[u8])
    ensures
        final(buf)@ == old(buf)@ + bytes@,
{
    let ghost start = buf@;
    let mut i: usize = 0;
    while i < bytes.len()
        invariant
            0 <= i <= bytes@.len(),
            buf@ == start + bytes@.take(i as int),
        decreases bytes@.len() - i,
    {
        buf.push(bytes[i]);
        proof {
            assert(buf@ =~= start + bytes@.take(i + 1));
        }
        i = i + 1;
    }
    proof {
        assert(bytes@.take(bytes@.len() as int) =~= bytes@);
    }
}

fn push_decimal(buf: &mut Vec<u8>, n: usize)
    ensures
        final(buf)@ == old(buf)@ + decimal(n as nat),
    decreases n,
{
    if n >= 10 {
        push_decimal(buf, n / 10);
    }
    let ghost mid = buf@;
    buf.push((n % 10) as u8 + 48);
    proof {
        if n >= 10 {
            assert(buf@ =~= old(buf)@ + decimal(n as nat));
        } else {
            assert(buf@ =~= old(buf)@ + decimal(n as nat));
        }
    }
}

/// Writes recipes in their wire form into a byte buffer.
pub struct Serializer {
    pub(crate) buffer: Vec<u8>,
}

impl Serializer {
    /// What has been written so far.
    pub closed spec fn text(&self) -> Seq<u8> {
        self.buffer@
    }

    pub fn new() -> (r: Self)
        ensures
            r.text() == Seq::<u8>::empty(),
    {
        Serializer { buffer: Vec::new() }
    }

    /// The bytes written.
    pub fn into_inner(self) -> (r: Vec<u8>)
        ensures
            r@ == self.text(),
    {
        self.buffer
    }

    fn write_number(&mut self, n: usize)
        ensures
            final(self).text() == old(self).text() + number_text(n as nat),
    {
        push_decimal(&mut self.buffer, n);
        self.buffer.push(32u8);
        proof {
            assert(self.text() =~= old(self).text() + number_text(n as nat));
        }
    }

    fn write_array(&mut self, array: &[usize])
        ensures
            final(self).text() == old(self).text() + array_text(array@),
    {
        self.write_number(array.len());
        let ghost start = self.text();
        let mut i: usize = 0;
        while i < array.len()
            invariant
                0 <= i <= array@.len(),
                self.text() == start + numbers_text(array@.take(i as int)),
            decreases array@.len() - i,
        {
            self.write_number(array[i]);
            proof {
                assert(array@.take(i + 1).drop_last() =~= array@.take(i as int));
                assert(self.text() =~= start + numbers_text(array@.take(i + 1)));
            }
            i = i + 1;
        }
        proof {
            assert(array@.take(array@.len() as int) =~= array@);
            assert(self.text() =~= old(self).text() + array_text(array@));
        }
    }

    /// Writes a word and its separating space.
    fn write_str(&mut self, value: &[u8])
        ensures
            final(self).text() == old(self).text() + value@.push(space()),
    {
        append_bytes(&mut self.buffer, value);
        self.buffer.push(32u8);
        proof {
            assert(self.text() =~= old(self).text() + value@.push(space()));
        }
    }

    fn write_simple_permutation(&mut self, p: &SimplePermutation)
        ensures
            final(self).text() == old(self).text() + tag_text(w_simple()) + array_text(p@),
    {
        let w: [u8; 6] = ['s' as u8, 'i' as u8, 'm' as u8, 'p' as u8, 'l' as u8, 'e' as u8];
        proof {
            assert(w@ =~= word(w_simple()));
        }
        self.write_str(&w);
        self.write_array(p.indices().as_slice());
    }

    fn write_rail_fence(&mut self, p: &RailFenceCypher)
        ensures
            final(self).text() == old(self).text() + algo_text(AlgoModel::Rail(p@.0, p@.1)),
    {
        let w: [u8; 4] = ['r' as u8, 'a' as u8, 'i' as u8, 'l' as u8];
        proof {
            assert(w@ =~= word(w_rail()));
        }
        self.write_str(&w);
        self.write_number(p.columns());
        self.write_number(p.rows());
        proof {
            assert(self.text() =~= old(self).text() + algo_text(AlgoModel::Rail(p@.0, p@.1)));
        }
    }

    fn write_vertical_permutation(&mut self, p: &VerticalPermutation)
        ensures
            final(self).text() == old(self).text() + algo_text(AlgoModel::Vertical(p@.0, p@.1, p@.2)),
    {
        let w: [u8; 8] = ['v' as u8, 'e' as u8, 'r' as u8, 't' as u8, 'i' as u8, 'c' as u8, 'a' as u8, 'l' as u8];
        proof {
            assert(w@ =~= word(w_vertical()));
        }
        self.write_str(&w);
        self.write_number(p.columns());
        self.write_number(p.rows());
        self.write_simple_permutation(p.permutation());
        proof {
            assert(self.text() =~= old(self).text() + algo_text(AlgoModel::Vertical(p@.0, p@.1, p@.2)));
        }
    }

    fn write_permutation(&mut self, p: &Algorithm)
        ensures
            final(self).text() == old(self).text() + algo_text(p@),
    {
        match p {
            Algorithm::Permutation(d) => {
                self.write_simple_permutation(d.get_inner());
                proof {
                    assert(self.text() =~= old(self).text() + algo_text(p@));
                }
            },
            Algorithm::RailFence(d) => self.write_rail_fence(d.get_inner()),
            Algorithm::Vertical(d) => self.write_vertical_permutation(d.get_inner()),
        }
    }

    fn write_pad(&mut self, pad: PadApproach)
        ensures
            final(self).text() == old(self).text() + pad_text(pad),
    {
        match pad {
            PadApproach::Padding => {
                let w: [u8; 7] = ['p' as u8, 'a' as u8, 'd' as u8, 'd' as u8, 'i' as u8, 'n' as u8, 'g' as u8];
                proof {
                    assert(w@ =~= word(w_padding()));
                }
                self.write_str(&w);
            },
            PadApproach::Unpadding => {
                let w: [u8; 9] = [
                    'u' as u8, 'n' as u8, 'p' as u8, 'a' as u8, 'd' as u8, 'd' as u8, 'i' as u8, 'n' as u8, 'g' as u8,
                ];
                proof {
                    assert(w@ =~= word(w_unpadding()));
                }
                self.write_str(&w);
            },
        }
    }

    fn write_style(&mut self, style: EncryptionStyle)
        ensures
            final(self).text() == old(self).text() + style_text(style),
    {
        match style {
            EncryptionStyle::Bit => {
                let w: [u8; 3] = ['b' as u8, 'i' as u8, 't' as u8];
                proof {
                    assert(w@ =~= word(w_bit()));
                }
                self.write_str(&w);
            },
            EncryptionStyle::Byte => {
                let w: [u8; 4] = ['b' as u8, 'y' as u8, 't' as u8, 'e' as u8];
                proof {
                    assert(w@ =~= word(w_byte()));
                }
                self.write_str(&w);
            },
            EncryptionStyle::Char => {
                let w: [u8; 4] = ['c' as u8, 'h' as u8, 'a' as u8, 'r' as u8];
                proof {
                    assert(w@ =~= word(w_char()));
                }
                self.write_str(&w);
            },
            EncryptionStyle::Group(g) => {
                let w: [u8; 5] = ['g' as u8, 'r' as u8, 'o' as u8, 'u' as u8, 'p' as u8];
                proof {
                    assert(w@ =~= word(w_group()));
                }
                self.write_str(&w);
                self.write_number(g);
                proof {
                    assert(self.text() =~= old(self).text() + style_text(style));
                }
            },
        }
    }

    /// Appends the wire form of a recipe.
    pub fn write_cypher(&mut self, cypher: &StackedCypher)
        ensures
            final(self).text() == old(self).text() + recipe_text(cypher@),
    {
        let items = cypher.items();
        let ghost layers = cypher@;
        self.write_number(items.len());
        let ghost start = self.text();
        let mut i: usize = 0;
        while i < items.len()
            invariant
                items@.map_values(|l: (PadApproach, EncryptionStyle, Algorithm)| (l.0, l.1, l.2@)) == layers,
                0 <= i <= items@.len(),
                self.text() == start + layers_text(layers.take(i as int)),
            decreases items@.len() - i,
        {
            let item = &items[i];
            self.write_pad(item.0);
            self.write_style(item.1);
            self.write_permutation(&item.2);
            proof {
                assert(layers[i as int] == (item.0, item.1, item.2@));
                assert(layers.take(i + 1).drop_last() =~= layers.take(i as int));
                assert(self.text() =~= start + layers_text(layers.take(i + 1)));
            }
            i = i + 1;
        }
        proof {
            assert(layers.take(items@.len() as int) =~= layers);
            assert(self.text() =~= old(self).text() + recipe_text(layers));
        }
    }

    /// Appends a payload style followed by the wire form of its recipe.
    pub fn write(&mut self, encryption: &Encryption)
        ensures
            final(self).text() == old(self).text() + style_text(encryption@.1) + recipe_text(encryption@.0),
    {
        self.write_style(encryption.get_style());
        self.write_cypher(encryption.get_algorithm());
    }
}

// ---- reading ----

fn bytes_equal(a: &[u8], b: &[u8]) -> (r: bool)
    ensures
        r == (a@ == b@),
{
    if a.len() != b.len() {
        return false;
    }
    let mut i: usize = 0;
    while i < a.len()
        invariant
            a@.len() == b@.len(),
            0 <= i <= a@.len(),
            forall|k: int| 0 <= k < i ==> a@[k] == b@[k],
        decreases a@.len() - i,
    {
        if a[i] != b[i] {
            return false;
        }
        i = i + 1;
    }
    proof {
        assert(a@ =~= b@);
    }
    true
}

/// A digit string's value only grows as digits are added.
proof fn lemma_digits_prefix(t: Seq<u8>, i: int)
    requires
        0 <= i <= t.len(),
        all_digits(t),
    ensures
        digits_value(t.take(i)) <= digits_value(t),
    decreases t.len() - i,
{
    if i < t.len() {
        lemma_digits_prefix(t, i + 1);
        assert(t.take(i + 1).drop_last() =~= t.take(i));
    } else {
        assert(t.take(i) =~= t);
    }
}

/// Reads recipes from their wire form.
pub struct Deserializer {
    pub(crate) data: Vec<u8>,
    pub(crate) pos: usize,
}

impl Deserializer {
    /// What is left to read.
    pub closed spec fn rest(&self) -> Seq<u8> {
        if self.pos <= self.data@.len() {
            self.data@.skip(self.pos as int)
        } else {
            Seq::empty()
        }
    }

    pub fn new(reader: &[u8]) -> (r: Self)
        ensures
            r.rest() == reader@,
    {
        let r = Deserializer { data: crate::permutation::copy_of(reader), pos: 0 };
        proof {
            assert(r.data@.skip(0) =~= reader@);
        }
        r
    }

    /// The next token, without its separating space.
    fn read_string(&mut self) -> (r: Vec<u8>)
        ensures
            (r@, final(self).rest()) == split_token(old(self).rest()),
    {
        if self.pos > self.data.len() {
            self.pos = self.data.len();
            proof {
                assert(self.data@.skip(self.pos as int) =~= Seq::<u8>::empty());
            }
        }
        let ghost s0 = old(self).rest();
        let start = self.pos;
        let n = self.data.len();
        let mut i: usize = start;
        let mut token: Vec<u8> = Vec::new();
        proof {
            assert(self.data@.skip(start as int) == s0);
        }
        while i < n && self.data[i] != 32u8
            invariant
                n == self.data@.len(),
                start <= i <= n,
                token@ == self.data@.subrange(start as int, i as int),
                split_token(s0) == (token@ + split_token(self.data@.skip(i as int)).0, split_token(self.data@.skip(i as int)).1),
            decreases n - i,
        {
            let b = self.data[i];
            token.push(b);
            proof {
                let sk = self.data@.skip(i as int);
                assert(sk[0] == b);
                assert(sk.drop_first() =~= self.data@.skip(i + 1));
                assert(token@ =~= self.data@.subrange(start as int, i + 1));
                assert(token@ + split_token(self.data@.skip(i + 1)).0 =~= self.data@.subrange(start as int, i as int) + (seq![b] + split_token(self.data@.skip(i + 1)).0));
            }
            i = i + 1;
        }
        if i < n {
            self.pos = i + 1;
            proof {
                let sk = self.data@.skip(i as int);
                assert(sk.drop_first() =~= self.data@.skip(i + 1));
                assert(token@ + Seq::<u8>::empty() =~= token@);
            }
        } else {
            self.pos = n;
            proof {
                assert(self.data@.skip(i as int) =~= Seq::<u8>::empty());
                assert(token@ + Seq::<u8>::empty() =~= token@);
            }
        }
        token
    }

    fn read_number(&mut self) -> (r: Result<usize, CipherError>)
        ensures
            match parse_number(old(self).rest()) {
                Some((n, rest)) => r == Ok::<usize, CipherError>(n) && final(self).rest() == rest,
                None => r == Err::<usize, CipherError>(CipherError::MalformedRecipe),
            },
    {
        let t = self.read_string();
        if t.len() == 0 {
            return Err(CipherError::MalformedRecipe);
        }
        let mut v: usize = 0;
        let mut i: usize = 0;
        while i < t.len()
            invariant
                split_token(old(self).rest()) == (t@, self.rest()),
                0 <= i <= t@.len(),
                all_digits(t@.take(i as int)),
                v == digits_value(t@.take(i as int)),
            decreases t@.len() - i,
        {
            let d = t[i];
            proof {
                assert(t@.take(i + 1).drop_last() =~= t@.take(i as int));
            }
            if d < 48 || d > 57 {
                proof {
                    assert(!is_digit(t@[i as int]));
                }
                return Err(CipherError::MalformedRecipe);
            }
            let next = match v.checked_mul(10) {
                Some(x) => x.checked_add((d - 48) as usize),
                None => None,
            };
            match next {
                Some(x) => {
                    v = x;
                },
                None => {
                    proof {
                        if all_digits(t@) {
                            lemma_digits_prefix(t@, i + 1);
                        }
                    }
                    return Err(CipherError::MalformedRecipe);
                },
            }
            i = i + 1;
        }
        proof {
            assert(t@.take(t@.len() as int) =~= t@);
        }
        Ok(v)
    }

    fn read_array(&mut self) -> (r: Result<Vec<usize>, CipherError>)
        ensures
            match parse_array(old(self).rest()) {
                Some((a, rest)) => r matches Ok(v) && v@ == a && final(self).rest() == rest,
                None => r == Err::<Vec<usize>, CipherError>(CipherError::MalformedRecipe),
            },
    {
        let size = self.read_number()?;
        let ghost r0 = self.rest();
        let mut v: Vec<usize> = Vec::new();
        let mut i: usize = 0;
        while i < size
            invariant
                parse_array(old(self).rest()) == parse_numbers(r0, size as nat),
                0 <= i <= size,
                parse_numbers(r0, i as nat) == Some::<(Seq<usize>, Seq<u8>)>((v@, self.rest())),
            decreases size - i,
        {
            let x = self.read_number();
            match x {
                Ok(x) => {
                    v.push(x);
                },
                Err(e) => {
                    proof {
                        lemma_parse_numbers_fail(r0, i as nat, size as nat);
                    }
                    return Err(e);
                },
            }
            i = i + 1;
        }
        Ok(v)
    }

    fn read_simple_permutation(&mut self) -> (r: Result<SimplePermutation, CipherError>)
        ensures
            match parse_array(old(self).rest()) {
                Some((a, rest)) => if is_perm(a) {
                    r matches Ok(p) && p@ == a && final(self).rest() == rest
                } else {
                    r == Err::<SimplePermutation, CipherError>(CipherError::MalformedRecipe)
                },
                None => r == Err::<SimplePermutation, CipherError>(CipherError::MalformedRecipe),
            },
    {
        let indices = self.read_array()?;
        match SimplePermutation::try_from(indices) {
            Some(p) => Ok(p),
            None => Err(CipherError::MalformedRecipe),
        }
    }

    fn read_rail_fence(&mut self) -> (r: Result<RailFenceCypher, CipherError>)
        ensures
            match parse_algo(tag_text(w_rail()) + old(self).rest()) {
                Some((m, rest)) => r matches Ok(c) && c.model() == m && final(self).rest() == rest,
                None => r == Err::<RailFenceCypher, CipherError>(CipherError::MalformedRecipe),
            },
    {
        proof {
            lemma_words_differ();
            lemma_tag(w_rail(), old(self).rest());
        }
        let columns = self.read_number()?;
        let rows = self.read_number()?;
        match RailFenceCypher::try_new(rows, columns) {
            Ok(c) => Ok(c),
            Err(_) => Err(CipherError::MalformedRecipe),
        }
    }

    fn read_vertical(&mut self) -> (r: Result<VerticalPermutation, CipherError>)
        ensures
            match parse_algo(tag_text(w_vertical()) + old(self).rest()) {
                Some((m, rest)) => r matches Ok(c) && c.model() == m && final(self).rest() == rest,
                None => r == Err::<VerticalPermutation, CipherError>(CipherError::MalformedRecipe),
            },
    {
        proof {
            lemma_words_differ();
            lemma_tag(w_vertical(), old(self).rest());
        }
        let columns = self.read_number()?;
        let rows = self.read_number()?;
        let tag = self.read_string();
        let w: [u8; 6] = ['s' as u8, 'i' as u8, 'm' as u8, 'p' as u8, 'l' as u8, 'e' as u8];
        proof {
            assert(w@ =~= word(w_simple()));
        }
        if !bytes_equal(tag.as_slice(), &w) {
            return Err(CipherError::MalformedRecipe);
        }
        let permutation = self.read_simple_permutation()?;
        match VerticalPermutation::try_new(rows, columns, permutation) {
            Ok(c) => Ok(c),
            Err(_) => Err(CipherError::MalformedRecipe),
        }
    }

    fn read_permutation(&mut self) -> (r: Result<Algorithm, CipherError>)
        ensures
            match parse_algo(old(self).rest()) {
                Some((m, rest)) => r matches Ok(a) && a@ == m && final(self).rest() == rest,
                None => r == Err::<Algorithm, CipherError>(CipherError::MalformedRecipe),
            },
    {
        let tag = self.read_string();
        let ws: [u8; 6] = ['s' as u8, 'i' as u8, 'm' as u8, 'p' as u8, 'l' as u8, 'e' as u8];
        let wr: [u8; 4] = ['r' as u8, 'a' as u8, 'i' as u8, 'l' as u8];
        let wv: [u8; 8] = ['v' as u8, 'e' as u8, 'r' as u8, 't' as u8, 'i' as u8, 'c' as u8, 'a' as u8, 'l' as u8];
        proof {
            assert(ws@ =~= word(w_simple()));
            assert(wr@ =~= word(w_rail()));
            assert(wv@ =~= word(w_vertical()));
            lemma_words_differ();
        }
        if bytes_equal(tag.as_slice(), &ws) {
            let p = self.read_simple_permutation()?;
            Ok(p.into_algorithm())
        } else if bytes_equal(tag.as_slice(), &wr) {
            proof {
                lemma_tag(w_rail(), self.rest());
            }
            let c = self.read_rail_fence()?;
            Ok(c.into_algorithm())
        } else if bytes_equal(tag.as_slice(), &wv) {
            proof {
                lemma_tag(w_vertical(), self.rest());
            }
            let c = self.read_vertical()?;
            Ok(c.into_algorithm())
        } else {
            Err(CipherError::MalformedRecipe)
        }
    }

    /// Whether everything has been read.
    pub fn is_finished(&self) -> (r: bool)
        ensures
            r == (self.rest().len() == 0),
    {
        self.pos >= self.data.len()
    }

    fn read_pad(&mut self) -> (r: Result<PadApproach, CipherError>)
        ensures
            match parse_pad(old(self).rest()) {
                Some((p, rest)) => r == Ok::<PadApproach, CipherError>(p) && final(self).rest() == rest,
                None => r == Err::<PadApproach, CipherError>(CipherError::MalformedRecipe),
            },
    {
        let tag = self.read_string();
        let wp: [u8; 7] = ['p' as u8, 'a' as u8, 'd' as u8, 'd' as u8, 'i' as u8, 'n' as u8, 'g' as u8];
        let wu: [u8; 9] = [
            'u' as u8, 'n' as u8, 'p' as u8, 'a' as u8, 'd' as u8, 'd' as u8, 'i' as u8, 'n' as u8, 'g' as u8,
        ];
        proof {
            assert(wp@ =~= word(w_padding()));
            assert(wu@ =~= word(w_unpadding()));
        }
        if bytes_equal(tag.as_slice(), &wp) {
            Ok(PadApproach::Padding)
        } else if bytes_equal(tag.as_slice(), &wu) {
            Ok(PadApproach::Unpadding)
        } else {
            Err(CipherError::MalformedRecipe)
        }
    }

    fn read_style(&mut self) -> (r: Result<EncryptionStyle, CipherError>)
        ensures
            match parse_style(old(self).rest()) {
                Some((st, rest)) => r == Ok::<EncryptionStyle, CipherError>(st) && final(self).rest() == rest,
                None => r == Err::<EncryptionStyle, CipherError>(CipherError::MalformedRecipe),
            },
    {
        let tag = self.read_string();
        let bit_word: [u8; 3] = ['b' as u8, 'i' as u8, 't' as u8];
        let byte_word: [u8; 4] = ['b' as u8, 'y' as u8, 't' as u8, 'e' as u8];
        let char_word: [u8; 4] = ['c' as u8, 'h' as u8, 'a' as u8, 'r' as u8];
        let group_word: [u8; 5] = ['g' as u8, 'r' as u8, 'o' as u8, 'u' as u8, 'p' as u8];
        proof {
            assert(bit_word@ =~= word(w_bit()));
            assert(byte_word@ =~= word(w_byte()));
            assert(char_word@ =~= word(w_char()));
            assert(group_word@ =~= word(w_group()));
        }
        if bytes_equal(tag.as_slice(), &bit_word) {
            Ok(EncryptionStyle::Bit)
        } else if bytes_equal(tag.as_slice(), &byte_word) {
            Ok(EncryptionStyle::Byte)
        } else if bytes_equal(tag.as_slice(), &char_word) {
            Ok(EncryptionStyle::Char)
        } else if bytes_equal(tag.as_slice(), &group_word) {
            let g = self.read_number()?;
            if g == 0 {
                return Err(CipherError::MalformedRecipe);
            }
            Ok(EncryptionStyle::Group(g))
        } else {
            Err(CipherError::MalformedRecipe)
        }
    }

    fn read_layer(&mut self) -> (r: Result<(PadApproach, EncryptionStyle, Algorithm), CipherError>)
        ensures
            match parse_layer(old(self).rest()) {
                Some((l, rest)) => r matches Ok(x) && (x.0, x.1, x.2@) == l && final(self).rest() == rest,
                None => r == Err::<(PadApproach, EncryptionStyle, Algorithm), CipherError>(CipherError::MalformedRecipe),
            },
    {
        let pad = self.read_pad()?;
        let style = self.read_style()?;
        let algorithm = self.read_permutation()?;
        Ok((pad, style, algorithm))
    }

    /// Reads one recipe in wire form.
    pub fn read_cypher(&mut self) -> (r: Result<StackedCypher, CipherError>)
        ensures
            match parse_recipe(old(self).rest()) {
                Some((ls, rest)) => r matches Ok(c) && c@ == ls && final(self).rest() == rest,
                None => r == Err::<StackedCypher, CipherError>(CipherError::MalformedRecipe),
            },
    {
        let size = self.read_number()?;
        let ghost r0 = self.rest();
        let mut res = StackedCypher::new();
        let mut i: usize = 0;
        while i < size
            invariant
                parse_recipe(old(self).rest()) == parse_layers(r0, size as nat),
                0 <= i <= size,
                parse_layers(r0, i as nat) == Some::<(Seq<LayerModel>, Seq<u8>)>((res@, self.rest())),
            decreases size - i,
        {
            let (pad, style, algorithm) = match self.read_layer() {
                Ok(l) => l,
                Err(e) => {
                    proof {
                        lemma_parse_layers_fail(r0, i as nat, size as nat);
                    }
                    return Err(e);
                },
            };
            res.push(pad, style, algorithm);
            i = i + 1;
        }
        Ok(res)
    }

    /// Reads a payload style followed by a recipe.
    pub fn read(&mut self) -> (r: Result<Encryption, CipherError>)
        ensures
            match parse_style(old(self).rest()) {
                Some((st, r1)) => match parse_recipe(r1) {
                    Some((ls, rest)) => r matches Ok(e) && e@ == (ls, st) && final(self).rest() == rest,
                    None => r == Err::<Encryption, CipherError>(CipherError::MalformedRecipe),
                },
                None => r == Err::<Encryption, CipherError>(CipherError::MalformedRecipe),
            },
    {
        let style = self.read_style()?;
        let cypher = self.read_cypher()?;
        Ok(Encryption::new(cypher, style))
    }
}

proof fn lemma_parse_layers_fail(s: Seq<u8>, i: nat, k: nat)
    requires
        i < k,
        parse_layers(s, i) matches Some((v, r)) && parse_layer(r) is None,
    ensures
        parse_layers(s, k) is None,
    decreases k,
{
    if k > i + 1 {
        lemma_parse_layers_fail(s, i, (k - 1) as nat);
    }
}

proof fn lemma_parse_numbers_fail(s: Seq<u8>, i: nat, k: nat)
    requires
        i < k,
        parse_numbers(s, i) matches Some((v, r)) && parse_number(r) is None,
    ensures
        parse_numbers(s, k) is None,
    decreases k,
{
    if k > i + 1 {
        lemma_parse_numbers_fail(s, i, (k - 1) as nat);
    }
}

} // verus!
