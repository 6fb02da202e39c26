use transposer::cyphers::IndexEncrypt;
use transposer::error::CipherError;
use transposer::generation::{random_rail_fence, random_vertical};
use transposer::permutation::SimplePermutation;

#[test]
fn generate_permutation() {
    for _ in 0..1000 {
        let permutation = SimplePermutation::random();
        let n = permutation.indices().len();
        assert!((2..=20).contains(&n));
        let mut sorted = permutation.indices().clone();
        sorted.sort();
        assert_eq!(sorted, (0..n).collect::<Vec<_>>());
    }
}

#[test]
fn generate_railfence() {
    for _ in 0..1000 {
        let rail = random_rail_fence();
        assert!((4..=16).contains(&rail.columns()));
        assert!(rail.rows() >= 2 && rail.rows() <= rail.columns() - 2);
        assert_eq!(rail.encrypt_indices().len(), rail.columns());
    }
}

#[test]
fn generate_vertical() {
    for _ in 0..1000 {
        let vertical = random_vertical();
        assert!((4..=16).contains(&vertical.columns()));
        assert!(vertical.rows() >= 2 && vertical.rows() <= vertical.columns() - 2);
        assert_eq!(vertical.permutation().indices().len(), vertical.columns());
    }
}

#[test]
fn random_with_size_checks_size() {
    assert!(matches!(
        SimplePermutation::random_with_size(0),
        Err(CipherError::InvalidConfig)
    ));
    let p = SimplePermutation::random_with_size(7).unwrap();
    let mut sorted = p.indices().clone();
    sorted.sort();
    assert_eq!(sorted, (0..7).collect::<Vec<_>>());
}
