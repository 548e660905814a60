use theos::identity::contact::{Contact, ContactBook};
use theos::identity::keypair::{IdentityKey, KeyPair};

fn fixture(name: &str) -> Contact {
    let kp = KeyPair::generate();
    Contact::new(name, kp.public.clone())
}

#[test]
fn to_bytes_from_bytes_round_trip_preserves_contacts() {
    let mut book = ContactBook::new();
    book.add(fixture("alice")).unwrap();
    book.add(fixture("bob")).unwrap();
    book.add(fixture("carol")).unwrap();

    let bytes = book.to_bytes();
    let restored = ContactBook::from_bytes(&bytes);

    assert_eq!(restored.count(), 3);
    for (k, v) in &book.contacts {
        let r = restored.find(&v.key).expect("contact missing after round trip");
        assert_eq!(&r.key.to_hex(), k);
        assert_eq!(r.name, v.name);
        assert_eq!(r.added_at, v.added_at);
        assert_eq!(r.key.to_hex(), v.key.to_hex());
    }
}

#[test]
fn from_bytes_empty_returns_empty_book() {
    let book = ContactBook::from_bytes(&[]);
    assert_eq!(book.count(), 0);
}

#[test]
fn from_bytes_skips_malformed_lines() {
    let mut book = ContactBook::new();
    book.add(fixture("alice")).unwrap();
    let mut bytes = book.to_bytes();
    bytes.extend_from_slice(b"\nnot:a:valid:contact:line:with:too:many:parts");
    bytes.extend_from_slice(b"\nno_colons_at_all");
    bytes.extend_from_slice(b"\nzz_bad_hex:0:partial");

    let restored = ContactBook::from_bytes(&bytes);
    assert_eq!(restored.count(), 1, "only the valid line should survive");
}

fn key(b: u8) -> IdentityKey {
    IdentityKey([b; 32])
}

#[test]
fn to_bytes_exact_format() {
    let mut book = ContactBook::new();
    book.add(Contact::new_at("dave", key(0xab), 42)).unwrap();
    let expected = format!("{}:42:dave", "ab".repeat(32));
    assert_eq!(book.to_bytes(), expected.into_bytes());
}

#[test]
fn from_bytes_reads_fields_and_defaults_bad_number_to_zero() {
    let text = format!("{}:notanumber:eve:with:colons\r\n{}:+7:frank", "01".repeat(32), "02".repeat(32));
    let book = ContactBook::from_bytes(text.as_bytes());
    assert_eq!(book.count(), 2);
    let eve = book.find(&key(1)).unwrap();
    assert_eq!(eve.name, "eve:with:colons");
    assert_eq!(eve.added_at, 0);
    assert!(eve.trusted);
    assert_eq!(eve.last_seen, None);
    let frank = book.find(&key(2)).unwrap();
    assert_eq!(frank.added_at, 7);
}

#[test]
fn from_bytes_later_line_replaces_earlier() {
    let text = format!("{h}:1:first\n{h}:2:second", h = "03".repeat(32));
    let book = ContactBook::from_bytes(text.as_bytes());
    assert_eq!(book.count(), 1);
    assert_eq!(book.find(&key(3)).unwrap().name, "second");
}

#[test]
fn from_bytes_invalid_utf8_is_empty() {
    let book = ContactBook::from_bytes(&[0xff, 0xfe, b':', b':']);
    assert_eq!(book.count(), 0);
}

#[test]
fn add_twice_is_refused() {
    let mut book = ContactBook::new();
    book.add(Contact::new_at("gina", key(4), 1)).unwrap();
    let err = book.add(Contact::new_at("gina2", key(4), 2)).unwrap_err();
    assert_eq!(err, "contact gina2 already exists");
    assert_eq!(book.count(), 1);
}

#[test]
fn trust_follows_add_and_remove() {
    let mut book = ContactBook::new();
    assert!(!book.is_trusted(&key(5)));
    book.add(Contact::new_at("hal", key(5), 1)).unwrap();
    assert!(book.is_trusted(&key(5)));
    assert_eq!(book.find(&key(5)).unwrap().name, "hal");
    assert!(book.remove(&key(5)).is_ok());
    assert!(!book.is_trusted(&key(5)));
    assert!(book.find(&key(5)).is_none());
    assert!(book.remove(&key(5)).is_ok());
}

#[test]
fn all_is_sorted_by_name() {
    let mut book = ContactBook::new();
    book.add(Contact::new_at("zoe", key(6), 1)).unwrap();
    book.add(Contact::new_at("Adam", key(7), 1)).unwrap();
    book.add(Contact::new_at("bea", key(8), 1)).unwrap();
    let names: Vec<&str> = book.all().iter().map(|c| c.name.as_str()).collect();
    assert_eq!(names, vec!["Adam", "bea", "zoe"]);
}

#[test]
fn contact_new_is_trusted_and_unseen() {
    let c = Contact::new("ivy", key(9));
    assert!(c.trusted);
    assert_eq!(c.last_seen, None);
    assert_eq!(c.name, "ivy");
}
