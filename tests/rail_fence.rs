use transposer::cyphers::{BlockEncrypt, IndexEncrypt};
use transposer::error::CipherError;
use transposer::rail_fence::RailFenceCypher;

#[test]
fn encrypt() {
    let cypher = RailFenceCypher::try_new(3, 8).unwrap();

    let data = "abcdefgh".chars().collect::<Vec<_>>();
    assert_eq!(
        cypher.encrypt_block(data),
        "aebdfhcg".chars().collect::<Vec<_>>()
    );
}

#[test]
fn indices() {
    let cypher = RailFenceCypher::try_new(3, 8).unwrap();
    // 0 1 2 3 4 5 6 7
    // 0 4 1 3 5 7 2 6
    assert_eq!(cypher.encrypt_indices(), vec![0, 2, 6, 3, 1, 4, 7, 5]);
}

#[test]
fn two_rails_is_not_identity() {
    let cypher = RailFenceCypher::try_new(2, 5).unwrap();
    assert_eq!(cypher.encrypt_indices(), vec![0, 3, 1, 4, 2]);
}

#[test]
fn one_rail_is_identity() {
    let cypher = RailFenceCypher::try_new(1, 4).unwrap();
    assert_eq!(cypher.encrypt_indices(), vec![0, 1, 2, 3]);
}

#[test]
fn invalid_shapes_are_rejected() {
    assert_eq!(RailFenceCypher::try_new(0, 4), Err(CipherError::InvalidConfig));
    assert_eq!(RailFenceCypher::try_new(4, 4), Err(CipherError::InvalidConfig));
    assert_eq!(RailFenceCypher::try_new(5, 4), Err(CipherError::InvalidConfig));
    assert_eq!(RailFenceCypher::try_new(2, 0), Err(CipherError::InvalidConfig));
}

#[test]
fn two_rails_closed_form() {
    for c in 3..20usize {
        let cypher = RailFenceCypher::try_new(2, c).unwrap();
        let expected: Vec<usize> = (0..c)
            .map(|j| if j % 2 == 0 { j / 2 } else { (c + 1) / 2 + j / 2 })
            .collect();
        assert_eq!(cypher.encrypt_indices(), expected);
    }
}
