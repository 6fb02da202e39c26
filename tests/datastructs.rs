use transposer::datastructs::{
    encode_chars, from_bits, groups_from_str, string_from_groups, to_bits, Bit, BitVector, CharGroup,
};

#[test]
fn bits_of_a_byte() {
    let bits = to_bits(0b1000_0101);
    let values: Vec<bool> = bits.iter().map(|b| b.0).collect();
    assert_eq!(values, vec![true, false, true, false, false, false, false, true]);
    assert_eq!(from_bits(&bits), 0b1000_0101);
    assert_eq!(from_bits(&[Bit(false), Bit(true)]), 2);
}

#[test]
fn bit_vector_round_trip() {
    let v = BitVector::from_bytes(&[0x01, 0x80]);
    assert_eq!(v.0.len(), 16);
    assert!(v.0[0].0);
    assert!(v.0[15].0);
    assert_eq!(v.into_bytes(), vec![0x01, 0x80]);
    assert_eq!(BitVector(vec![Bit(true); 9]).into_bytes(), vec![0xff, 0x01]);
}

#[test]
fn groups_split_and_join() {
    let groups = groups_from_str("abcdefg", 3);
    assert_eq!(
        groups,
        vec![
            CharGroup(vec!['a', 'b', 'c']),
            CharGroup(vec!['d', 'e', 'f']),
            CharGroup(vec!['g'])
        ]
    );
    assert_eq!(string_from_groups(&groups), "abcdefg");
}

#[test]
fn utf8_encoding() {
    assert_eq!(encode_chars(&['a', 'ä', '€']), "aä€".as_bytes());
}
