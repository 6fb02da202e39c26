use transposer::encryption::Encryption;
use transposer::error::CipherError;
use transposer::permutation::SimplePermutation;
use transposer::rail_fence::RailFenceCypher;
use transposer::serialization::{Deserializer, Serializer};
use transposer::stacked::EncryptionStyle::{Bit, Byte, Char, Group};
use transposer::stacked::PadApproach::{Padding, Unpadding};
use transposer::stacked::{EncryptionStyle, StackedCypher};
use transposer::vertical::VerticalPermutation;

fn sample() -> StackedCypher {
    let mut cypher = StackedCypher::new();
    cypher.push(Padding, Char, SimplePermutation::try_from(vec![3, 2, 0, 1]).unwrap());
    cypher.push(
        Unpadding,
        Byte,
        VerticalPermutation::try_new(2, 4, SimplePermutation::trivial(4)).unwrap(),
    );
    cypher
}

#[test]
fn should_serialize() {
    let cypher = sample();

    let expected = "2 padding char simple 4 3 2 0 1 unpadding byte vertical 4 2 simple 4 0 1 2 3 ";
    let mut buf = Serializer::new();
    buf.write_cypher(&cypher);
    assert_eq!(String::from_utf8(buf.into_inner()).unwrap(), expected)
}

#[test]
fn should_deserialize() {
    let source = "2 padding char simple 4 3 2 0 1 unpadding byte vertical 4 2 simple 4 0 1 2 3 ";

    let expected = sample();

    let produced = Deserializer::new(source.as_bytes()).read_cypher().unwrap();

    let data = (0..1000usize).map(|i| (i % 256) as u8).collect::<Vec<_>>();

    let expected_output = expected.encrypt(&data);

    let produced_output = produced.encrypt(&data);

    assert_eq!(expected_output, produced_output);
    assert_eq!(produced, expected);
}

#[test]
fn work_with_encryption() {
    let cypher = sample();

    let encryption = Encryption::new(cypher, EncryptionStyle::Group(3));

    let mut buf = Serializer::new();

    buf.write(&encryption);

    let s = buf.into_inner();

    let produced = Deserializer::new(s.as_slice()).read().unwrap();
    assert_eq!(produced, encryption);
}

#[test]
fn rail_fence_writes_columns_then_rows() {
    let mut cypher = StackedCypher::new();
    cypher.push(Padding, Bit, RailFenceCypher::try_new(3, 8).unwrap());
    cypher.push(Unpadding, Group(12), SimplePermutation::trivial(1));
    let mut buf = Serializer::new();
    buf.write_cypher(&cypher);
    let text = String::from_utf8(buf.into_inner()).unwrap();
    assert_eq!(text, "2 padding bit rail 8 3 unpadding group 12 simple 1 0 ");
    let back = Deserializer::new(text.as_bytes()).read_cypher().unwrap();
    assert_eq!(back, cypher);
}

#[test]
fn empty_recipe_round_trips() {
    let cypher = StackedCypher::new();
    let mut buf = Serializer::new();
    buf.write_cypher(&cypher);
    let text = buf.into_inner();
    assert_eq!(text, b"0 ".to_vec());
    assert_eq!(Deserializer::new(&text).read_cypher().unwrap(), cypher);
}

#[test]
fn malformed_recipes_are_rejected() {
    let bad = [
        "1 padding byte simple 3 0 0 1 ",
        "1 sideways byte simple 1 0 ",
        "1 padding word simple 1 0 ",
        "1 padding byte rail 3 3 ",
        "1 padding byte vertical 3 2 simple 2 0 1 ",
        "1 padding byte vertical 2 2 swap 2 0 1 ",
        "1 padding group 0 simple 1 0 ",
        "x padding byte simple 1 0 ",
        "1 padding byte simple 2 0 ",
        "99999999999999999999999 ",
        "",
    ];
    for text in bad {
        assert_eq!(
            Deserializer::new(text.as_bytes()).read_cypher(),
            Err(CipherError::MalformedRecipe),
            "{}",
            text
        );
    }
}
