use transposer::encryption::Encryption;
use transposer::error::CipherError;
use transposer::permutation::SimplePermutation;
use transposer::rail_fence::RailFenceCypher;
use transposer::serialization::Deserializer;
use transposer::stacked::{EncryptionStyle, PadApproach, StackedCypher};
use transposer::vertical::VerticalPermutation;

use transposer::stacked::EncryptionStyle::{Bit, Byte, Char, Group};
use transposer::stacked::PadApproach::{Padding, Unpadding};

#[test]
fn should_work_for_complex_cypher() {
    let cypher = {
        let mut cypher = StackedCypher::new();
        cypher.push(
            Padding,
            Char,
            SimplePermutation::try_from(vec![0, 2, 1, 3]).unwrap(),
        );
        cypher.push(
            Unpadding,
            Byte,
            VerticalPermutation::try_new(
                2,
                4,
                SimplePermutation::try_from(vec![2, 3, 1, 0]).unwrap(),
            )
            .unwrap(),
        );

        cypher.push(Padding, Byte, RailFenceCypher::try_new(3, 8).unwrap());

        cypher.push(
            Padding,
            Bit,
            SimplePermutation::try_from(vec![0, 1]).unwrap(),
        );
        cypher
    };

    let provided = "i love mom";

    let enc = cypher.encrypt(provided.as_bytes()).unwrap();

    assert_eq!(cypher.decrypt(enc).unwrap(), provided.as_bytes())
}

fn get_cypher(size: usize) -> StackedCypher {
    let mut cypher = StackedCypher::new();
    let permutation = SimplePermutation::random_with_size(size).unwrap();
    let indices = permutation.indices().clone();

    cypher.push(Padding, Byte, SimplePermutation::try_from(indices.clone()).unwrap());
    cypher.push(Unpadding, Byte, SimplePermutation::try_from(indices).unwrap());
    cypher.push(Padding, Byte, RailFenceCypher::try_new(3, 8).unwrap());
    cypher.push(
        Padding,
        Byte,
        VerticalPermutation::try_new(2, 4, SimplePermutation::trivial(4)).unwrap(),
    );

    cypher
}

#[test]
fn cyphers_randomly_test() {
    let expected: Vec<u8> = (0..15).collect();

    for round in 0..1000 {
        let encoder = get_cypher(3 + round % 10);

        let data = encoder.encrypt(&expected).unwrap();

        assert_eq!(
            encoder.decrypt(data).unwrap(),
            expected,
            "testing {:?}",
            encoder
        );
    }
}

fn get_algorithm() -> StackedCypher {
    Deserializer::new(
        "2 padding char simple 4 1 3 0 2 unpadding char vertical 4 2 simple 4 0 1 2 3 ".as_bytes(),
    )
    .read_cypher()
    .unwrap()
}

fn text_text_for_style(style: EncryptionStyle) {
    let algorithm = get_algorithm();
    let encryption = Encryption::new(algorithm, style);
    let string = "abcdefgh";

    let data = encryption.encrypt_text(string).unwrap();

    assert_eq!(
        encryption
            .decrypt_text((data.0, data.1.into_bytes()))
            .unwrap(),
        string
    )
}

fn raw_text_for_style(style: EncryptionStyle) {
    let algorithm = get_algorithm();
    let encryption = Encryption::new(algorithm, style);
    let string = "abcdefgh";

    assert_eq!(
        encryption
            .decrypt_text(encryption.encrypt_raw(string.as_bytes()).unwrap())
            .unwrap(),
        string
    )
}

#[test]
fn should_work_with_text() {
    raw_text_for_style(EncryptionStyle::Bit);
    raw_text_for_style(EncryptionStyle::Byte);
    text_text_for_style(EncryptionStyle::Char);
    text_text_for_style(EncryptionStyle::Group(2));
}

#[test]
fn scenario_simple_char_padding() {
    let mut cypher = StackedCypher::new();
    cypher.push(Padding, Char, SimplePermutation::try_from(vec![1, 3, 0, 2]).unwrap());
    let (tokens, out) = cypher.encrypt("abcd".as_bytes()).unwrap();
    assert_eq!(tokens, vec![4]);
    assert_eq!(out, "cadb".as_bytes());
    assert_eq!(cypher.decrypt((vec![4], "cadb".as_bytes().to_vec())).unwrap(), "abcd".as_bytes());
}

#[test]
fn scenario_rail_fence_char_padding() {
    let mut cypher = StackedCypher::new();
    cypher.push(Padding, Char, RailFenceCypher::try_new(3, 8).unwrap());
    let (tokens, out) = cypher.encrypt("abcdefgh".as_bytes()).unwrap();
    assert_eq!(tokens, vec![8]);
    assert_eq!(out, "aebdfhcg".as_bytes());
}

#[test]
fn scenario_vertical_char_padding() {
    let mut cypher = StackedCypher::new();
    let pi = SimplePermutation::try_from(vec![1, 3, 0, 2]).unwrap();
    cypher.push(Padding, Char, VerticalPermutation::try_new(2, 4, pi).unwrap());
    let enc = cypher.encrypt("abcdefgh".as_bytes()).unwrap();
    assert_eq!(enc.1, "cgaedhbf".as_bytes());
    assert_eq!(cypher.decrypt(enc).unwrap(), "abcdefgh".as_bytes());
}

#[test]
fn empty_input_gives_zero_tokens() {
    let mut cypher = StackedCypher::new();
    cypher.push(Padding, Byte, SimplePermutation::try_from(vec![1, 0, 2]).unwrap());
    cypher.push(Unpadding, Char, RailFenceCypher::try_new(2, 5).unwrap());
    cypher.push(Padding, Bit, SimplePermutation::try_from(vec![2, 0, 1]).unwrap());
    cypher.push(Padding, Group(2), SimplePermutation::try_from(vec![1, 0]).unwrap());
    let (tokens, out) = cypher.encrypt(&[]).unwrap();
    assert_eq!(tokens, vec![0, 0, 0, 0]);
    assert!(out.is_empty());
    assert_eq!(cypher.decrypt((tokens, out)).unwrap(), Vec::<u8>::new());
}

#[test]
fn group_of_one_matches_char() {
    let input = "the quick brown fox".as_bytes();
    for pad in [Padding, Unpadding] {
        let mut a = StackedCypher::new();
        a.push(pad, Char, RailFenceCypher::try_new(3, 7).unwrap());
        let mut b = StackedCypher::new();
        b.push(pad, Group(1), RailFenceCypher::try_new(3, 7).unwrap());
        assert_eq!(a.encrypt(input).unwrap(), b.encrypt(input).unwrap());
    }
}

#[test]
fn encryption_is_deterministic() {
    let mut cypher = StackedCypher::new();
    cypher.push(Unpadding, Byte, SimplePermutation::try_from(vec![3, 1, 0, 2]).unwrap());
    cypher.push(Padding, Bit, RailFenceCypher::try_new(2, 4).unwrap());
    let x = "determinism".as_bytes();
    assert_eq!(cypher.encrypt(x).unwrap(), cypher.encrypt(x).unwrap());
}

#[test]
fn bits_are_least_significant_first() {
    // swapping each pair of bits of 0b0000_0001 gives 0b0000_0010
    let mut cypher = StackedCypher::new();
    cypher.push(Padding, Bit, SimplePermutation::try_from(vec![1, 0]).unwrap());
    let (tokens, out) = cypher.encrypt(&[0b0000_0001]).unwrap();
    assert_eq!(tokens, vec![8]);
    assert_eq!(out, vec![0b0000_0010]);
}

#[test]
fn padded_bits_fill_the_last_byte_with_zeros() {
    // 8 bits padded to 9 with a zero bit, then packed into two bytes
    let mut cypher = StackedCypher::new();
    cypher.push(Padding, Bit, SimplePermutation::try_from(vec![0, 1, 2]).unwrap());
    let (tokens, out) = cypher.encrypt(&[0xff]).unwrap();
    assert_eq!(tokens, vec![8]);
    assert_eq!(out, vec![0xff, 0x00]);
}

#[test]
fn length_laws() {
    let mut padded = StackedCypher::new();
    padded.push(Padding, Byte, SimplePermutation::try_from(vec![2, 0, 1, 3]).unwrap());
    let (_, out) = padded.encrypt(&[1, 2, 3, 4, 5]).unwrap();
    assert_eq!(out.len(), 8);

    let mut unpadded = StackedCypher::new();
    unpadded.push(Unpadding, Byte, SimplePermutation::try_from(vec![2, 0, 1, 3]).unwrap());
    let (_, out) = unpadded.encrypt(&[1, 2, 3, 4, 5]).unwrap();
    assert_eq!(out.len(), 5);

    let mut groups = StackedCypher::new();
    groups.push(Unpadding, Group(2), SimplePermutation::try_from(vec![2, 0, 1]).unwrap());
    let (tokens, out) = groups.encrypt("abcdef".as_bytes()).unwrap();
    assert_eq!(tokens, vec![3]);
    assert_eq!(out, "cdefab".as_bytes());
}

#[test]
fn unicode_scalars_are_moved_whole() {
    let mut cypher = StackedCypher::new();
    cypher.push(Unpadding, Char, SimplePermutation::try_from(vec![1, 0]).unwrap());
    let enc = cypher.encrypt("äöü".as_bytes()).unwrap();
    assert_eq!(enc.1, "öäü".as_bytes());
    assert_eq!(cypher.decrypt(enc).unwrap(), "äöü".as_bytes());
}

#[test]
fn error_kinds() {
    let mut chars = StackedCypher::new();
    chars.push(Padding, Char, SimplePermutation::try_from(vec![1, 0]).unwrap());
    assert_eq!(chars.encrypt(&[0xff, 0xfe]), Err(CipherError::EncodingError));

    let mut groups = StackedCypher::new();
    groups.push(Padding, Group(2), SimplePermutation::try_from(vec![1, 0]).unwrap());
    assert_eq!(groups.encrypt("abc".as_bytes()), Err(CipherError::MalformedInput));

    let mut bytes = StackedCypher::new();
    bytes.push(Padding, Byte, SimplePermutation::try_from(vec![1, 0, 2]).unwrap());
    assert_eq!(bytes.decrypt((vec![4], vec![1, 2, 3, 4])), Err(CipherError::MalformedCiphertext));
    assert_eq!(bytes.decrypt((vec![], vec![1, 2, 3])), Err(CipherError::TokenMismatch));
    assert_eq!(bytes.decrypt((vec![3, 3], vec![1, 2, 3])), Err(CipherError::TokenMismatch));

    let mut unpadded = StackedCypher::new();
    unpadded.push(Unpadding, Byte, SimplePermutation::try_from(vec![1, 0, 2]).unwrap());
    assert_eq!(unpadded.decrypt((vec![5], vec![1, 2, 3, 4])), Err(CipherError::MalformedCiphertext));
    assert_eq!(unpadded.decrypt((vec![4], vec![2, 1, 3, 4])), Ok(vec![1, 2, 3, 4]));
}

#[test]
fn raw_and_text_styles_are_kept_apart() {
    let text = Encryption::new(get_algorithm(), Char);
    assert!(text.accepts_characters());
    assert_eq!(text.encrypt_raw(b"abcd"), Err(CipherError::InvalidConfig));
    let raw = Encryption::new(get_algorithm(), Byte);
    assert!(!raw.accepts_characters());
    assert_eq!(raw.get_style(), Byte);
    assert_eq!(raw.get_algorithm().len(), 2);
    assert_eq!(raw.encrypt_text("abcd"), Err(CipherError::InvalidConfig));
}

#[test]
fn algorithm_regimes() {
    let mut cypher = StackedCypher::new();
    cypher.push(PadApproach::Padding, Byte, SimplePermutation::try_from(vec![1, 0]).unwrap());
    let layer = &cypher.items()[0];
    let algorithm = &layer.2;
    assert_eq!(algorithm.epad(&[1u8, 2, 3]), (3, vec![2, 1, 0, 3]));
    assert_eq!(algorithm.dpad(&[2u8, 1, 0, 3], 3).unwrap(), vec![1, 2, 3]);
    assert_eq!(algorithm.eunpad(&[1u8, 2, 3]), vec![2, 1, 3]);
    assert_eq!(algorithm.dunpad(&[2u8, 1, 3]), vec![1, 2, 3]);
}

#[test]
fn padded_bits_round_trip_with_any_block_size() {
    // 8 bits pad to 9 and pack into 2 bytes; decryption drops the packing bits
    let mut cypher = StackedCypher::new();
    cypher.push(Padding, Bit, SimplePermutation::try_from(vec![1, 2, 0]).unwrap());
    let enc = cypher.encrypt(&[0x5a]).unwrap();
    assert_eq!(enc.0, vec![8]);
    assert_eq!(enc.1.len(), 2);
    assert_eq!(cypher.decrypt(enc), Ok(vec![0x5a]));
    let enc = cypher.encrypt(&[0xab]).unwrap();
    assert_eq!(cypher.decrypt(enc), Ok(vec![0xab]));
    for size in 1..20 {
        let mut c = StackedCypher::new();
        c.push(Padding, Bit, SimplePermutation::random_with_size(size).unwrap());
        let x: Vec<u8> = (0..13).map(|i| (i * 37 + 5) as u8).collect();
        let enc = c.encrypt(&x).unwrap();
        assert_eq!(c.decrypt(enc), Ok(x));
    }
}

#[test]
fn padded_bits_with_wrong_length_are_rejected() {
    let mut cypher = StackedCypher::new();
    cypher.push(Padding, Bit, SimplePermutation::try_from(vec![1, 2, 0]).unwrap());
    // token 8 pads to 9 bits: one byte is too few, three bytes are too many
    assert_eq!(cypher.decrypt((vec![8], vec![0x12])), Err(CipherError::MalformedCiphertext));
    assert_eq!(cypher.decrypt((vec![8], vec![1, 2, 3])), Err(CipherError::MalformedCiphertext));
}

#[test]
fn unpadded_bits_round_trip_with_any_block_size() {
    let mut cypher = StackedCypher::new();
    cypher.push(Unpadding, Bit, SimplePermutation::try_from(vec![1, 2, 0]).unwrap());
    let enc = cypher.encrypt(&[0x5a, 0x01]).unwrap();
    assert_eq!(enc.1.len(), 2);
    assert_eq!(cypher.decrypt(enc).unwrap(), vec![0x5a, 0x01]);
}
