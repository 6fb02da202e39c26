use transposer::cyphers::{BlockDecrypt, BlockEncrypt, IndexEncrypt};
use transposer::decode::PermutationBlockDecoder;
use transposer::permutation::{move_by_indices, SimplePermutation};

#[test]
fn permutation() {
    let permutation = SimplePermutation::try_from(vec![1, 3, 0, 2]).unwrap();

    let cypher = PermutationBlockDecoder::new(permutation);

    assert_eq!(cypher.encrypt_indices(), vec![1, 3, 0, 2]);

    let original_data = "abcd".chars().collect::<Vec<_>>();

    let encrypted = cypher.encrypt_block(original_data.clone());

    assert_eq!(encrypted, "cadb".chars().collect::<Vec<_>>());

    let decrypted = cypher.decrypt_block(encrypted);
    assert_eq!(decrypted, original_data);
}

#[test]
fn substitution() {
    assert_eq!(
        move_by_indices(vec!['a', 'b', 'c', 'd'], &[1, 2, 0, 3]),
        vec!['c', 'a', 'b', 'd']
    )
}

#[test]
fn random_test_padded() {
    let data: Vec<usize> = (0..100).collect();

    for size in 2..60 {
        for _ in 0..100 {
            let permutation = SimplePermutation::random_with_size(size).unwrap();
            let cypher = PermutationBlockDecoder::new(permutation);

            let encrypted = cypher.encrypt_with_pad(&data);

            assert_eq!(
                data,
                cypher.decrypt_with_pad(&encrypted.1, encrypted.0).unwrap()
            );
        }
    }
}

#[test]
fn random_test_unpadded() {
    let data: Vec<usize> = (0..100).collect();

    for size in 2..60 {
        for _ in 0..100 {
            let permutation = SimplePermutation::random_with_size(size).unwrap();
            let cypher = PermutationBlockDecoder::new(permutation);

            let encrypted = cypher.encrypt_unpad(&data);

            assert_eq!(data, cypher.decrypt_unpad(&encrypted));
        }
    }
}

#[test]
fn try_from_rejects_non_permutations() {
    assert!(SimplePermutation::try_from(vec![]).is_none());
    assert!(SimplePermutation::try_from(vec![0, 0]).is_none());
    assert!(SimplePermutation::try_from(vec![1, 2]).is_none());
    assert!(SimplePermutation::try_from(vec![0]).is_some());
}

#[test]
fn inverse_undoes_permutation() {
    let p = vec![2, 0, 3, 1];
    let inv = SimplePermutation::inverse(&p);
    assert_eq!(inv, vec![1, 3, 0, 2]);
    let data = vec!['w', 'x', 'y', 'z'];
    let moved = move_by_indices(data.clone(), &p);
    assert_eq!(move_by_indices(moved, &inv), data);
}

#[test]
fn size_one_is_identity() {
    let p = SimplePermutation::try_from(vec![0]).unwrap();
    let cypher = PermutationBlockDecoder::new(p);
    assert_eq!(cypher.encrypt_block(vec![42u8]), vec![42u8]);
    let (size, out) = cypher.encrypt_with_pad(&[1u8, 2, 3]);
    assert_eq!(size, 3);
    assert_eq!(out, vec![1, 2, 3]);
}

#[test]
fn trivial_is_identity() {
    let p = SimplePermutation::trivial(5);
    assert_eq!(p.indices().clone(), vec![0, 1, 2, 3, 4]);
}

#[test]
fn padding_rounds_up_to_whole_blocks() {
    let p = SimplePermutation::try_from(vec![1, 0, 2]).unwrap();
    let cypher = PermutationBlockDecoder::new(p);
    let (size, out) = cypher.encrypt_with_pad(&[10u8, 20, 30, 40]);
    assert_eq!(size, 4);
    assert_eq!(out, vec![20, 10, 30, 0, 40, 0]);
    assert_eq!(cypher.decrypt_with_pad(&out, 4).unwrap(), vec![10, 20, 30, 40]);
}

#[test]
fn padded_decrypt_rejects_partial_blocks() {
    let p = SimplePermutation::try_from(vec![1, 0, 2]).unwrap();
    let cypher = PermutationBlockDecoder::new(p);
    assert_eq!(
        cypher.decrypt_with_pad(&[1u8, 2, 3, 4], 4),
        Err(transposer::error::CipherError::MalformedCiphertext)
    );
}

#[test]
fn unpadding_keeps_length() {
    let p = SimplePermutation::try_from(vec![1, 0, 2]).unwrap();
    let cypher = PermutationBlockDecoder::new(p);
    let out = cypher.encrypt_unpad(&[10u8, 20, 30, 40]);
    assert_eq!(out, vec![20, 10, 30, 40]);
    assert_eq!(cypher.decrypt_unpad(&out), vec![10, 20, 30, 40]);
    let out = cypher.encrypt_unpad(&[10u8, 20, 30, 40, 50]);
    assert_eq!(out, vec![20, 10, 30, 50, 40]);
    assert_eq!(cypher.decrypt_unpad(&out), vec![10, 20, 30, 40, 50]);
}
