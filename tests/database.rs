use transposer::database::Database;
use transposer::error::CipherError;
use transposer::permutation::SimplePermutation;
use transposer::stacked::EncryptionStyle::Byte;
use transposer::stacked::PadApproach::Padding;
use transposer::stacked::StackedCypher;

fn recipe(p: Vec<usize>) -> StackedCypher {
    let mut c = StackedCypher::new();
    c.push(Padding, Byte, SimplePermutation::try_from(p).unwrap());
    c
}

#[test]
fn keystore_loads_one_entry_and_saves_empty_after_delete() {
    let text = "k1:2 padding byte simple 4 0 1 2 3 padding byte rail 8 3 \n";
    let mut db = Database::parse(text.as_bytes()).unwrap();
    assert_eq!(db.keys(), vec!["k1".to_string()]);
    assert_eq!(db.get("k1").unwrap().len(), 2);
    assert!(db.delete("k1").is_some());
    assert!(db.to_text().is_empty());
}

#[test]
fn keystore_rejects_layer_without_tags() {
    let text = "k1:2 padding byte simple 4 0 1 2 3 rail 8 3 ";
    assert_eq!(Database::parse(text.as_bytes()), Err(CipherError::MalformedEntry));
}

#[test]
fn keystore_rejects_malformed_lines() {
    assert_eq!(Database::parse(b"no colon here"), Err(CipherError::MalformedEntry));
    assert_eq!(Database::parse(b":1 padding byte simple 1 0 "), Err(CipherError::MalformedEntry));
    assert_eq!(Database::parse(b"a:1 padding byte simple 1 0 extra"), Err(CipherError::MalformedEntry));
}

#[test]
fn keystore_add_get_delete() {
    let mut db = Database::new();
    assert!(db.add("a", recipe(vec![1, 0])).is_none());
    assert!(db.add("b", recipe(vec![0, 1, 2])).is_none());
    let previous = db.add("a", recipe(vec![2, 0, 1])).unwrap();
    assert_eq!(previous, recipe(vec![1, 0]));
    assert_eq!(db.get("a").unwrap(), &recipe(vec![2, 0, 1]));
    assert!(db.get("c").is_none());
    let mut keys = db.keys();
    keys.sort();
    assert_eq!(keys, vec!["a".to_string(), "b".to_string()]);
    assert_eq!(db.delete("b").unwrap(), recipe(vec![0, 1, 2]));
    assert!(db.delete("b").is_none());
}

#[test]
fn keystore_text_round_trip() {
    let mut db = Database::new();
    db.add("first", recipe(vec![1, 0]));
    db.add("second key", recipe(vec![0, 2, 1]));
    let text = db.to_text();
    assert_eq!(
        String::from_utf8(text.clone()).unwrap(),
        "first:1 padding byte simple 2 1 0 \nsecond key:1 padding byte simple 3 0 2 1 "
    );
    let back = Database::parse(&text).unwrap();
    assert_eq!(back, db);
}

#[test]
fn keystore_reload_keeps_old_entries_on_failure() {
    let mut db = Database::parse(b"x:1 padding byte simple 1 0 \n\ny:0 ").unwrap();
    assert_eq!(db.keys().len(), 2);
    assert_eq!(db.reload_from(b"broken"), Err(CipherError::MalformedEntry));
    assert_eq!(db.keys().len(), 2);
    assert!(db.reload_from(b"z:0 ").is_ok());
    assert_eq!(db.keys(), vec!["z".to_string()]);
}

#[test]
fn keystore_later_entry_wins() {
    let db = Database::parse(b"k:1 padding byte simple 1 0 \nk:0 ").unwrap();
    assert_eq!(db.get("k").unwrap().len(), 0);
}
