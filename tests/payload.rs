use transposer::payload::{parse_payload, write_payload};

#[test]
fn payload_round_trip() {
    let bytes = write_payload(&[3, 258], b"xyz");
    assert_eq!(
        bytes,
        vec![0, 0, 0, 0, 0, 0, 0, 2, 0, 0, 0, 0, 0, 0, 0, 3, 0, 0, 0, 0, 0, 0, 1, 2, b'x', b'y', b'z']
    );
    assert_eq!(parse_payload(&bytes), Some((vec![3, 258], b"xyz".to_vec())));
}

#[test]
fn payload_without_tokens() {
    let bytes = write_payload(&[], &[]);
    assert_eq!(bytes, vec![0; 8]);
    assert_eq!(parse_payload(&bytes), Some((vec![], vec![])));
}

#[test]
fn payload_too_short() {
    assert_eq!(parse_payload(&[0, 0, 0]), None);
    assert_eq!(parse_payload(&[0, 0, 0, 0, 0, 0, 0, 1, 0, 0]), None);
}
