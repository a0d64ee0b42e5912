use kvs::record::{Command, MAX_KEY_BYTES, MAX_VALUE_BYTES, TAG_REMOVE, TAG_SET};

fn text(s: &str) -> String {
    s.to_string()
}

#[test]
fn constructors_build_the_variants() {
    assert_eq!(
        Command::set(text("k"), text("v")),
        Command::Put { key: text("k"), value: text("v") }
    );
    assert_eq!(Command::remove(text("k")), Command::Remove { key: text("k") });
}

#[test]
fn a_set_record_is_tag_key_and_value() {
    let bytes = Command::set(text("ab"), text("xyz")).encode().unwrap();
    assert_eq!(bytes, vec![1u8, 2, 0, 0, 0, b'a', b'b', 3, 0, 0, 0, b'x', b'y', b'z']);
    assert_eq!(TAG_SET, 1);
}

#[test]
fn a_remove_record_is_tag_and_key() {
    let bytes = Command::remove(text("ab")).encode().unwrap();
    assert_eq!(bytes, vec![2u8, 2, 0, 0, 0, b'a', b'b']);
    assert_eq!(TAG_REMOVE, 2);
}

#[test]
fn lengths_are_little_endian_counts_of_bytes() {
    let key = "\u{00e9}".repeat(200);
    let bytes = Command::set(key.clone(), text("")).encode().unwrap();
    assert_eq!(bytes.len(), 1 + 4 + 400 + 4);
    assert_eq!(&bytes[0..5], &[1u8, 0x90, 0x01, 0, 0]);
    assert_eq!(&bytes[405..], &[0u8, 0, 0, 0]);
    assert_eq!(Command::decode(&bytes, 0), Some((Command::set(key, text("")), 409)));
}

#[test]
fn decode_gives_back_what_encode_took() {
    let commands = vec![
        Command::set(text(""), text("")),
        Command::set(text("k"), text("v")),
        Command::set(text("a:b"), text("line\nline:\u{1F980}")),
        Command::remove(text("")),
        Command::remove(text("gone")),
    ];
    for command in commands {
        let bytes = command.encode().unwrap();
        let length = bytes.len();
        assert_eq!(Command::decode(&bytes, 0), Some((command, length)));
    }
}

#[test]
fn decode_reads_the_record_at_the_offset_and_no_further() {
    let first = Command::set(text("a"), text("1"));
    let second = Command::remove(text("a"));
    let mut bytes = first.encode().unwrap();
    bytes.extend(second.encode().unwrap());
    bytes.extend(vec![0xffu8, 0xff]);
    assert_eq!(Command::decode(&bytes, 0), Some((first, 11)));
    assert_eq!(Command::decode(&bytes, 11), Some((second, 6)));
    assert_eq!(Command::decode(&bytes, 17), None);
    assert_eq!(Command::decode(&bytes, 19), None);
    assert_eq!(Command::decode(&bytes, 20), None);
    assert_eq!(Command::decode(&bytes, 1), None);
}

#[test]
fn decode_refuses_what_is_not_a_record() {
    assert_eq!(Command::decode(&[], 0), None);
    assert_eq!(Command::decode(&[1, 0, 0, 0], 0), None);
    assert_eq!(Command::decode(&[0, 0, 0, 0, 0], 0), None);
    assert_eq!(Command::decode(&[3, 0, 0, 0, 0], 0), None);
    assert_eq!(Command::decode(&[2, 1, 0, 0, 0], 0), None);
    assert_eq!(Command::decode(&[2, 0, 0, 0, 1], 0), None);
    assert_eq!(Command::decode(&[1, 0, 0, 0, 0, 0, 0, 0], 0), None);
    assert_eq!(Command::decode(&[1, 0, 0, 0, 0, 1, 0, 0, 0], 0), None);
    assert_eq!(Command::decode(&[2, 1, 0, 0, 0, 0xff], 0), None);
    assert_eq!(Command::decode(&[1, 0, 0, 0, 0, 2, 0, 0, 0, 0xc3, 0x28], 0), None);
    assert_eq!(Command::decode(&[2, 0, 0, 0, 0], 0), Some((Command::remove(text("")), 5)));
    assert_eq!(
        Command::decode(&[1, 0, 0, 0, 0, 0, 0, 0, 0], 0),
        Some((Command::set(text(""), text("")), 9))
    );
}

#[test]
fn a_field_may_be_as_long_as_four_bytes_count() {
    assert_eq!(MAX_KEY_BYTES, 4294967295);
    assert_eq!(MAX_VALUE_BYTES, 4294967295);
    let key = "k".repeat(65536);
    let bytes = Command::remove(key.clone()).encode().unwrap();
    assert_eq!(&bytes[0..5], &[2u8, 0, 0, 1, 0]);
    assert_eq!(Command::decode(&bytes, 0), Some((Command::remove(key), 65541)));
}

fn text_of_bytes(length: usize) -> Option<String> {
    if Vec::<u8>::new().try_reserve_exact(length).is_err() {
        return None;
    }
    Some("k".repeat(length))
}

#[test]
fn a_field_longer_than_four_bytes_count_is_refused() {
    if let Some(long) = text_of_bytes(MAX_KEY_BYTES + 1) {
        assert_eq!(long.len(), 4294967296);
        let command = Command::remove(long);
        assert_eq!(command.encode(), Err(kvs::error::KvsError::Serialization));
        let mut store = kvs::kv::KvStore::open(Vec::new()).unwrap();
        if let Command::Remove { key } = command {
            assert_eq!(
                store.set(text("a"), key),
                Err(kvs::error::KvsError::Serialization)
            );
            assert_eq!(store.total_bytes(), 0);
            assert_eq!(store.get(text("a")).unwrap(), None);
        }
    }
}
