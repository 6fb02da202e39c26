use transposer::cyphers::IndexEncrypt;
use transposer::decode::PermutationBlockDecoder;
use transposer::error::CipherError;
use transposer::permutation::SimplePermutation;
use transposer::vertical::VerticalPermutation;

#[test]
fn vertical_permutation() {
    let permutation = SimplePermutation::try_from(vec![1, 3, 0, 2]).unwrap();

    let original_data = "abcdefgh".chars().collect::<Vec<_>>();

    let vertical = VerticalPermutation::try_new(2, 4, permutation).unwrap();

    let cypher = PermutationBlockDecoder::new(vertical);

    let (size, encrypted) = cypher.encrypt_with_pad(&original_data);

    assert_eq!(encrypted, "cgaedhbf".chars().collect::<Vec<_>>());

    let decrypted = cypher.decrypt_with_pad(&encrypted, size).unwrap();
    assert_eq!(decrypted, original_data);
}

#[test]
fn vertical_indices_and_run() {
    let permutation = SimplePermutation::try_from(vec![1, 3, 0, 2]).unwrap();
    let vertical = VerticalPermutation::try_new(2, 4, permutation).unwrap();
    assert_eq!(vertical.encrypt_indices(), vec![2, 6, 0, 4, 3, 7, 1, 5]);
    assert_eq!(
        vertical.run("abcdefgh".chars().collect::<Vec<_>>()),
        "cgaedhbf".chars().collect::<Vec<_>>()
    );
}

#[test]
fn vertical_invalid_shapes() {
    let p = || SimplePermutation::try_from(vec![1, 0]).unwrap();
    assert!(matches!(
        VerticalPermutation::try_new(0, 2, p()),
        Err(CipherError::InvalidConfig)
    ));
    assert!(matches!(
        VerticalPermutation::try_new(2, 0, p()),
        Err(CipherError::InvalidConfig)
    ));
    assert!(matches!(
        VerticalPermutation::try_new(2, 3, p()),
        Err(CipherError::InvalidConfig)
    ));
}
