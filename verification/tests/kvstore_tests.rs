use kv_store::format::{
    deserialize_borrowed, deserialize_header, parse_entry, serialize_header, serialize_value,
    RawHeader, TypeTag, HEADER_SIZE,
};
use kv_store::{BorrowedEntry, BorrowedValue, DecodeError, Key, KvError, KvStore, OwnedValue};

fn ktxt(s: &str) -> Key {
    Key::Text(s.to_string())
}

fn kint(i: i64) -> Key {
    Key::Integer(i)
}

fn entries(kv: &KvStore) -> Vec<(Key, BorrowedValue<'_>)> {
    let mut it = kv.iter();
    let mut out = Vec::new();
    while let Some(e) = it.next() {
        out.push((e.key.clone(), e.value));
    }
    out
}

#[test]
fn header_size_matches_const() {
    let h = RawHeader { length: 0, checksum: 0, tag: 0 };
    let mut buf = Vec::new();
    serialize_header(&h, &mut buf);
    assert_eq!(HEADER_SIZE, buf.len());
}

#[test]
fn raw_header_roundtrip_single() {
    let h = RawHeader {
        length: 123,
        checksum: 0xDEADBEEF,
        tag: TypeTag::Text as u8,
    };

    let mut buf = Vec::new();
    serialize_header(&h, &mut buf);

    assert_eq!(buf.len(), HEADER_SIZE);

    let h2 = deserialize_header(&buf).unwrap();
    assert_eq!(h, h2);
}

#[test]
fn checksum_detects_corruption() {
    let mut kv = KvStore::new();
    kv.insert(ktxt("x"), OwnedValue::Integer(123));

    let off = kv.test_get_offset(&ktxt("x"));
    let corrupt_idx = off + HEADER_SIZE;
    kv.test_corrupt_byte(corrupt_idx);

    let res = kv.get_borrowed(&ktxt("x"));
    assert!(res.is_err());
}

#[test]
fn any_flipped_payload_byte_is_a_checksum_mismatch() {
    let mut kv = KvStore::new();
    kv.insert(ktxt("t"), OwnedValue::Text("hello".into()));
    kv.insert(ktxt("other"), OwnedValue::Integer(7));
    assert_eq!(kv.test_get_offset(&ktxt("t")), 0);
    // payload: 8 length bytes and 5 text bytes
    for i in 0..13 {
        let mut copy = KvStore::load_from_bytes(&kv.persist_to_bytes()).unwrap();
        let o = copy.test_get_offset(&ktxt("t"));
        assert_eq!(o, 0);
        copy.test_corrupt_byte(o + HEADER_SIZE + i);
        assert!(matches!(
            copy.get_borrowed(&ktxt("t")),
            Err(KvError::Corrupted(DecodeError::ChecksumMismatch { .. }))
        ));
        assert_eq!(copy.get_owned(&ktxt("other")).unwrap(), Some(OwnedValue::Integer(7)));
    }
}

#[test]
fn kvstore_tests_insert_and_get_text() {
    let mut kv = KvStore::new();

    kv.insert(ktxt("lang"), OwnedValue::Text("Rust".into()));
    kv.insert(ktxt("framework"), OwnedValue::Text("Tokio".into()));

    assert_eq!(
        kv.get_borrowed(&ktxt("lang")).unwrap(),
        Some(BorrowedValue::Text("Rust"))
    );
    assert_eq!(
        kv.get_borrowed(&ktxt("framework")).unwrap(),
        Some(BorrowedValue::Text("Tokio"))
    );

    assert_eq!(
        kv.get_owned(&ktxt("lang")).unwrap(),
        Some(OwnedValue::Text("Rust".into()))
    );
}

#[test]
fn kvstore_tests_insert_and_get_integer_bool_blob() {
    let mut kv = KvStore::new();

    kv.insert(ktxt("answer"), OwnedValue::Integer(42));
    kv.insert(ktxt("flag"), OwnedValue::Bool(true));
    kv.insert(ktxt("raw"), OwnedValue::Blob(vec![9, 8, 7]));

    assert_eq!(
        kv.get_borrowed(&ktxt("answer")).unwrap(),
        Some(BorrowedValue::Integer(42))
    );
    assert_eq!(
        kv.get_borrowed(&ktxt("flag")).unwrap(),
        Some(BorrowedValue::Bool(true))
    );

    match kv.get_borrowed(&ktxt("raw")).unwrap().unwrap() {
        BorrowedValue::Blob(b) => assert_eq!(b, &[9, 8, 7]),
        _ => panic!("expected Blob"),
    }

    assert_eq!(
        kv.get_owned(&ktxt("answer")).unwrap(),
        Some(OwnedValue::Integer(42))
    );
}

#[test]
fn integer_key_works_and_is_distinct_from_text_key() {
    let mut kv = KvStore::new();

    kv.insert(kint(5), OwnedValue::Text("five (int)".into()));
    kv.insert(ktxt("5"), OwnedValue::Text("five (string)".into()));

    assert_eq!(
        kv.get_borrowed(&kint(5)).unwrap(),
        Some(BorrowedValue::Text("five (int)"))
    );
    assert_eq!(
        kv.get_borrowed(&ktxt("5")).unwrap(),
        Some(BorrowedValue::Text("five (string)"))
    );
}

#[test]
fn kvstore_tests_overwrite_key_updates_value() {
    let mut kv = KvStore::new();

    kv.insert(ktxt("k"), OwnedValue::Text("old".into()));
    kv.insert(ktxt("k"), OwnedValue::Text("new".into()));

    assert_eq!(
        kv.get_borrowed(&ktxt("k")).unwrap(),
        Some(BorrowedValue::Text("new"))
    );
    assert_eq!(
        kv.get_owned(&ktxt("k")).unwrap(),
        Some(OwnedValue::Text("new".into()))
    );
}

#[test]
fn missing_key_returns_none() {
    let mut kv = KvStore::new();

    kv.insert(ktxt("exists"), OwnedValue::Integer(1));

    assert_eq!(kv.get_borrowed(&ktxt("does_not_exist")).unwrap(), None);
    assert_eq!(kv.get_owned(&ktxt("does_not_exist")).unwrap(), None);
}

#[test]
fn multiple_entries_do_not_interfere() {
    let mut kv = KvStore::new();

    kv.insert(ktxt("a"), OwnedValue::Integer(1));
    kv.insert(ktxt("b"), OwnedValue::Bool(false));
    kv.insert(ktxt("c"), OwnedValue::Text("see".into()));

    assert_eq!(
        kv.get_borrowed(&ktxt("a")).unwrap(),
        Some(BorrowedValue::Integer(1))
    );
    assert_eq!(
        kv.get_borrowed(&ktxt("b")).unwrap(),
        Some(BorrowedValue::Bool(false))
    );
    assert_eq!(
        kv.get_borrowed(&ktxt("c")).unwrap(),
        Some(BorrowedValue::Text("see"))
    );
}

#[test]
fn insert_and_get_text() {
    let mut kv = KvStore::new();
    kv.insert(ktxt("lang"), OwnedValue::Text("Rust".into()));

    assert_eq!(
        kv.get_borrowed(&ktxt("lang")).unwrap(),
        Some(BorrowedValue::Text("Rust"))
    );
}

#[test]
fn insert_and_get_integer_bool_blob() {
    let mut kv = KvStore::new();
    kv.insert(ktxt("answer"), OwnedValue::Integer(42));
    kv.insert(ktxt("flag"), OwnedValue::Bool(true));
    kv.insert(ktxt("raw"), OwnedValue::Blob(vec![9, 8, 7]));

    assert_eq!(
        kv.get_borrowed(&ktxt("answer")).unwrap(),
        Some(BorrowedValue::Integer(42))
    );
    assert_eq!(
        kv.get_borrowed(&ktxt("flag")).unwrap(),
        Some(BorrowedValue::Bool(true))
    );

    match kv.get_borrowed(&ktxt("raw")).unwrap().unwrap() {
        BorrowedValue::Blob(b) => assert_eq!(b, &[9, 8, 7]),
        _ => panic!("expected Blob"),
    }

    assert_eq!(
        kv.get_owned(&ktxt("answer")).unwrap(),
        Some(OwnedValue::Integer(42))
    );
}

#[test]
fn overwrite_key_updates_value() {
    let mut kv = KvStore::new();
    kv.insert(ktxt("k"), OwnedValue::Text("old".into()));
    kv.insert(ktxt("k"), OwnedValue::Text("new".into()));

    assert_eq!(
        kv.get_borrowed(&ktxt("k")).unwrap(),
        Some(BorrowedValue::Text("new"))
    );
}

#[test]
fn iter_returns_entries_in_storage_order() {
    let mut kv = KvStore::new();

    kv.insert(ktxt("a"), OwnedValue::Integer(10));
    kv.insert(ktxt("b"), OwnedValue::Bool(true));
    kv.insert(ktxt("c"), OwnedValue::Text("hello".into()));

    let items: Vec<(Key, BorrowedValue)> = entries(&kv);

    assert_eq!(items.len(), 3);

    assert_eq!(items[0].0, ktxt("a"));
    assert_eq!(items[0].1, BorrowedValue::Integer(10));

    assert_eq!(items[1].0, ktxt("b"));
    assert_eq!(items[1].1, BorrowedValue::Bool(true));

    assert_eq!(items[2].0, ktxt("c"));
    assert_eq!(items[2].1, BorrowedValue::Text("hello"));
}

#[test]
fn iter_stops_correctly() {
    let mut kv = KvStore::new();
    kv.insert(ktxt("x"), OwnedValue::Integer(1));

    let mut it = kv.iter();

    let first: BorrowedEntry<'_> = it.next().expect("expected one element");
    assert_eq!(first.key, &ktxt("x"));
    assert_eq!(first.value, BorrowedValue::Integer(1));

    assert_eq!(it.next(), None);
    assert_eq!(it.next(), None);
}

#[test]
fn keys_are_returned_in_storage_order() {
    let mut kv = KvStore::new();
    kv.insert(ktxt("first"), OwnedValue::Integer(1));
    kv.insert(ktxt("second"), OwnedValue::Integer(2));
    kv.insert(ktxt("third"), OwnedValue::Integer(3));

    let keys: Vec<&Key> = kv.keys();

    assert_eq!(keys.len(), 3);
    assert_eq!(keys[0], &ktxt("first"));
    assert_eq!(keys[1], &ktxt("second"));
    assert_eq!(keys[2], &ktxt("third"));
}

#[test]
fn values_returned_in_storage_order() {
    let mut kv = KvStore::new();
    kv.insert(kint(5), OwnedValue::Text("five".into()));
    kv.insert(kint(6), OwnedValue::Text("six".into()));

    let vals: Vec<_> = kv.values();

    assert_eq!(vals.len(), 2);
    assert_eq!(vals[0], BorrowedValue::Text("five"));
    assert_eq!(vals[1], BorrowedValue::Text("six"));
}

#[test]
fn iter_works_with_all_types() {
    let mut kv = KvStore::new();

    kv.insert(kint(1), OwnedValue::Integer(42));
    kv.insert(kint(2), OwnedValue::Bool(false));
    kv.insert(kint(3), OwnedValue::Blob(vec![1, 2, 3]));

    let vals: Vec<_> = entries(&kv).into_iter().map(|e| e.1).collect();

    assert_eq!(vals.len(), 3);
    assert_eq!(vals[0], BorrowedValue::Integer(42));
    assert_eq!(vals[1], BorrowedValue::Bool(false));
    match vals[2] {
        BorrowedValue::Blob(b) => assert_eq!(b, &[1, 2, 3]),
        _ => panic!("expected blob"),
    }
}

#[test]
fn persist_and_load_roundtrip() {
    let image;
    {
        let mut kv = KvStore::new();
        kv.insert(ktxt("a"), OwnedValue::Integer(1));
        kv.insert(ktxt("b"), OwnedValue::Text("hello".into()));
        image = kv.persist_to_bytes();
    }

    let kv2 = KvStore::load_from_bytes(&image).unwrap();

    assert_eq!(
        kv2.get_owned(&ktxt("a")).unwrap(),
        Some(OwnedValue::Integer(1))
    );
    assert_eq!(
        kv2.get_owned(&ktxt("b")).unwrap(),
        Some(OwnedValue::Text("hello".into()))
    );
}

#[test]
fn load_corrupted_file_returns_error() {
    let mut data;
    {
        let mut kv = KvStore::new();
        kv.insert(ktxt("k"), OwnedValue::Integer(123));
        data = kv.persist_to_bytes();
    }

    if !data.is_empty() {
        let mid = data.len() / 2;
        data[mid] ^= 0xFF;
    }

    let res = KvStore::load_from_bytes(&data);

    assert!(res.is_err());
}

// ---- further cases ----

#[test]
fn crc_check_value() {
    // the CRC-32/ISO-HDLC check value
    let crc = crc::Crc::<u32>::new(&crc::CRC_32_ISO_HDLC).checksum(b"123456789");
    assert_eq!(crc, 0xCBF4_3926);
}

#[test]
fn encoded_entry_layout_and_checksum() {
    let mut out = Vec::new();
    serialize_value(&OwnedValue::Integer(123), &mut out);
    assert_eq!(out.len(), HEADER_SIZE + 8);
    assert_eq!(&out[0..8], &13u64.to_le_bytes());
    let payload = 123i64.to_le_bytes();
    let crc = crc::Crc::<u32>::new(&crc::CRC_32_ISO_HDLC).checksum(&payload);
    // CRC-32 of the eight little-endian bytes of 123
    assert_eq!(crc, 0x9418_52af);
    assert_eq!(&out[8..12], &crc.to_le_bytes());
    assert_eq!(out[12], 0);
    assert_eq!(&out[13..], &payload);
    // The checksum of these 8 bytes is not the bytes handed in.
    assert_ne!(crc, u32::from_le_bytes([payload[0], payload[1], payload[2], payload[3]]));
}

#[test]
fn text_entry_layout() {
    let mut out = Vec::new();
    serialize_value(&OwnedValue::Text("hé".into()), &mut out);
    // payload: 8-byte length 3, then the UTF-8 bytes
    assert_eq!(out.len(), HEADER_SIZE + 8 + 3);
    assert_eq!(&out[0..8], &(5u64 + 11).to_le_bytes());
    assert_eq!(out[12], 1);
    assert_eq!(&out[13..21], &3u64.to_le_bytes());
    assert_eq!(&out[21..], "hé".as_bytes());
    assert_eq!(deserialize_borrowed(&out), Ok(BorrowedValue::Text("hé")));
}

#[test]
fn decode_errors() {
    assert_eq!(deserialize_borrowed(&[0u8; 5]), Err(DecodeError::SliceTooShortForHeader));

    let mut out = Vec::new();
    serialize_value(&OwnedValue::Bool(true), &mut out);
    assert_eq!(deserialize_borrowed(&out[..out.len() - 1]), Err(DecodeError::EntryTruncated));

    let mut bad_tag = out.clone();
    bad_tag[12] = 9;
    assert_eq!(deserialize_borrowed(&bad_tag), Err(DecodeError::UnknownTypeTag(9)));

    let mut bad_sum = out.clone();
    bad_sum[13] = 0;
    match deserialize_borrowed(&bad_sum) {
        Err(DecodeError::ChecksumMismatch { computed, stored }) => assert_ne!(computed, stored),
        other => panic!("expected checksum mismatch, got {:?}", other),
    }

    let mut short_len = out.clone();
    short_len[0] = 2;
    assert_eq!(deserialize_borrowed(&short_len), Err(DecodeError::PayloadTruncated));
}

#[test]
fn parse_entry_reports_span_and_truncation() {
    let mut out = Vec::new();
    serialize_value(&OwnedValue::Blob(vec![1, 2]), &mut out);
    let n = out.len();
    out.extend_from_slice(&[7, 7, 7]);
    match parse_entry(&out) {
        Ok(Some((BorrowedValue::Blob(b), used))) => {
            assert_eq!(b, &[1, 2]);
            assert_eq!(used, n);
        }
        other => panic!("unexpected {:?}", other),
    }
    assert!(matches!(parse_entry(&out[..n - 1]), Ok(None)));
    assert!(matches!(parse_entry(&out[..4]), Ok(None)));
}

#[test]
fn delete_removes_key_only() {
    let mut kv = KvStore::new();
    kv.insert(ktxt("a"), OwnedValue::Integer(1));
    kv.insert(ktxt("b"), OwnedValue::Integer(2));
    let len = kv.storage_len();
    assert!(kv.delete(&ktxt("a")));
    assert!(!kv.delete(&ktxt("a")));
    assert_eq!(kv.storage_len(), len);
    assert_eq!(kv.get_owned(&ktxt("a")).unwrap(), None);
    assert_eq!(kv.get_owned(&ktxt("b")).unwrap(), Some(OwnedValue::Integer(2)));
    let keys = kv.keys();
    assert_eq!(keys, vec![&ktxt("b")]);
}

#[test]
fn overwritten_entry_is_skipped_by_iteration() {
    let mut kv = KvStore::new();
    kv.insert(ktxt("a"), OwnedValue::Integer(1));
    kv.insert(ktxt("b"), OwnedValue::Integer(2));
    kv.insert(ktxt("a"), OwnedValue::Integer(3));
    let items = entries(&kv);
    assert_eq!(items.len(), 2);
    assert_eq!(items[0], (ktxt("b"), BorrowedValue::Integer(2)));
    assert_eq!(items[1], (ktxt("a"), BorrowedValue::Integer(3)));
    assert_eq!(kv.storage_len(), 3 * (HEADER_SIZE + 8));
}

#[test]
fn persisted_image_reloads_live_entries_only() {
    let mut kv = KvStore::new();
    kv.insert(kint(-7), OwnedValue::Blob(vec![0, 255]));
    kv.insert(ktxt("t"), OwnedValue::Bool(true));
    kv.insert(kint(-7), OwnedValue::Text("x".into()));
    kv.delete(&ktxt("t"));
    let image = kv.persist_to_bytes();
    let back = KvStore::load_from_bytes(&image).unwrap();
    assert_eq!(back.get_owned(&kint(-7)).unwrap(), Some(OwnedValue::Text("x".into())));
    assert_eq!(back.get_owned(&ktxt("t")).unwrap(), None);
    assert_eq!(back.keys(), vec![&kint(-7)]);
}

#[test]
fn reloaded_store_iterates_in_the_same_order() {
    let mut kv = KvStore::new();
    kv.insert(ktxt("a"), OwnedValue::Integer(1));
    kv.insert(ktxt("b"), OwnedValue::Text("hello".into()));
    kv.insert(kint(3), OwnedValue::Bool(false));
    kv.insert(ktxt("a"), OwnedValue::Integer(4));
    let image = kv.persist_to_bytes();
    let back = KvStore::load_from_bytes(&image).unwrap();
    let before = entries(&kv);
    let after = entries(&back);
    assert_eq!(before, after);
    assert_eq!(
        after,
        vec![
            (ktxt("b"), BorrowedValue::Text("hello")),
            (kint(3), BorrowedValue::Bool(false)),
            (ktxt("a"), BorrowedValue::Integer(4)),
        ]
    );
    // persisting the reloaded store gives the same image again
    assert_eq!(back.persist_to_bytes(), image);
}

#[test]
fn insert_keeps_other_keys_readable() {
    let mut kv = KvStore::new();
    kv.insert(kint(5), OwnedValue::Integer(50));
    kv.insert(ktxt("5"), OwnedValue::Text("five".into()));
    let before = kv.storage_len();
    kv.insert(kint(5), OwnedValue::Text("abc".into()));
    assert_eq!(kv.storage_len(), before + HEADER_SIZE + 8 + 3);
    assert_eq!(kv.get_owned(&kint(5)).unwrap(), Some(OwnedValue::Text("abc".into())));
    assert_eq!(kv.get_owned(&ktxt("5")).unwrap(), Some(OwnedValue::Text("five".into())));
}

#[test]
fn load_errors() {
    // a key entry without its value
    let mut only_key = Vec::new();
    serialize_value(&OwnedValue::Integer(1), &mut only_key);
    assert!(matches!(KvStore::load_from_bytes(&only_key), Err(KvError::UnexpectedEof)));

    // a truncated entry: its length field reaches past the end
    assert!(matches!(
        KvStore::load_from_bytes(&only_key[..only_key.len() - 1]),
        Err(KvError::Corrupted(DecodeError::EntryTruncated))
    ));

    // an incomplete header
    assert!(matches!(
        KvStore::load_from_bytes(&only_key[..12]),
        Err(KvError::Corrupted(DecodeError::SliceTooShortForHeader))
    ));

    // a key followed by an incomplete value header
    let mut cut_value = only_key.clone();
    cut_value.extend_from_slice(&[0, 0, 0]);
    assert!(matches!(
        KvStore::load_from_bytes(&cut_value),
        Err(KvError::Corrupted(DecodeError::SliceTooShortForHeader))
    ));

    // a bool key
    let mut bool_key = Vec::new();
    serialize_value(&OwnedValue::Bool(false), &mut bool_key);
    serialize_value(&OwnedValue::Integer(1), &mut bool_key);
    assert!(matches!(KvStore::load_from_bytes(&bool_key), Err(KvError::InvalidKeyType)));

    // a corrupted entry
    let mut bad = only_key.clone();
    serialize_value(&OwnedValue::Integer(2), &mut bad);
    bad[13] ^= 1;
    assert!(matches!(
        KvStore::load_from_bytes(&bad),
        Err(KvError::Corrupted(DecodeError::ChecksumMismatch { .. }))
    ));

    // the empty image is the empty store
    let empty = KvStore::load_from_bytes(&[]).unwrap();
    assert_eq!(empty.keys().len(), 0);
}

#[test]
fn to_owned_copies_each_kind() {
    let bytes = [1u8, 2, 3];
    assert_eq!(BorrowedValue::Integer(-1).to_owned(), OwnedValue::Integer(-1));
    assert_eq!(BorrowedValue::Bool(true).to_owned(), OwnedValue::Bool(true));
    assert_eq!(BorrowedValue::Text("a").to_owned(), OwnedValue::Text("a".into()));
    assert_eq!(BorrowedValue::Blob(&bytes).to_owned(), OwnedValue::Blob(vec![1, 2, 3]));
}

#[test]
fn type_tag_bytes() {
    assert_eq!(TypeTag::from_u8(0), Some(TypeTag::Integer));
    assert_eq!(TypeTag::from_u8(3), Some(TypeTag::Blob));
    assert_eq!(TypeTag::from_u8(4), None);
    assert_eq!(TypeTag::Bool.to_u8(), 2);
}

#[test]
fn compaction_keeps_latest_and_drops_deleted() {
    let mut kv = KvStore::new();
    kv.insert(ktxt("a"), OwnedValue::Integer(1));
    kv.insert(ktxt("b"), OwnedValue::Text("bee".into()));
    kv.insert(ktxt("a"), OwnedValue::Integer(2));
    kv.insert(kint(9), OwnedValue::Blob(vec![4, 5]));
    kv.delete(&kint(9));
    let before = kv.storage_len();
    kv.compact().unwrap();
    assert!(kv.storage_len() < before);
    assert_eq!(kv.storage_len(), (HEADER_SIZE + 8) + (HEADER_SIZE + 8 + 3));
    assert_eq!(kv.get_owned(&ktxt("a")).unwrap(), Some(OwnedValue::Integer(2)));
    assert_eq!(kv.get_owned(&ktxt("b")).unwrap(), Some(OwnedValue::Text("bee".into())));
    assert_eq!(kv.get_owned(&kint(9)).unwrap(), None);
    let mut keys = kv.keys();
    keys.sort_by_key(|k| format!("{:?}", k));
    assert_eq!(keys, vec![&ktxt("a"), &ktxt("b")]);
}

#[test]
fn compaction_of_a_corrupted_entry_fails_and_changes_nothing() {
    let mut kv = KvStore::new();
    kv.insert(ktxt("a"), OwnedValue::Integer(1));
    kv.insert(ktxt("b"), OwnedValue::Integer(2));
    let off = kv.test_get_offset(&ktxt("b"));
    kv.test_corrupt_byte(off + HEADER_SIZE);
    let len = kv.storage_len();
    assert!(matches!(kv.compact(), Err(KvError::Corrupted(DecodeError::ChecksumMismatch { .. }))));
    assert_eq!(kv.storage_len(), len);
    assert_eq!(kv.get_owned(&ktxt("a")).unwrap(), Some(OwnedValue::Integer(1)));
}

#[test]
fn invalid_utf8_text_is_reported() {
    // A text entry whose 2 bytes are not UTF-8, with a matching checksum.
    let mut payload = 2u64.to_le_bytes().to_vec();
    payload.extend_from_slice(&[0xC3, 0x28]);
    let crc = crc::Crc::<u32>::new(&crc::CRC_32_ISO_HDLC).checksum(&payload);
    let mut entry = ((5 + payload.len()) as u64).to_le_bytes().to_vec();
    entry.extend_from_slice(&crc.to_le_bytes());
    entry.push(1);
    entry.extend_from_slice(&payload);
    assert_eq!(deserialize_borrowed(&entry), Err(DecodeError::InvalidUtf8));
    // and the missing-length errors of each kind
    for (tag, err) in [
        (0u8, DecodeError::MissingIntegerPayload),
        (1u8, DecodeError::MissingTextLength),
        (2u8, DecodeError::MissingBoolPayload),
        (3u8, DecodeError::MissingBlobLength),
    ] {
        let payload: Vec<u8> = vec![];
        let crc = crc::Crc::<u32>::new(&crc::CRC_32_ISO_HDLC).checksum(&payload);
        let mut e = 5u64.to_le_bytes().to_vec();
        e.extend_from_slice(&crc.to_le_bytes());
        e.push(tag);
        assert_eq!(deserialize_borrowed(&e), Err(err));
    }
    // a text length past the payload
    let mut payload = 9u64.to_le_bytes().to_vec();
    payload.push(b'a');
    for (tag, err) in [(1u8, DecodeError::MissingTextPayload), (3u8, DecodeError::MissingBlobPayload)] {
        let crc = crc::Crc::<u32>::new(&crc::CRC_32_ISO_HDLC).checksum(&payload);
        let mut e = ((5 + payload.len()) as u64).to_le_bytes().to_vec();
        e.extend_from_slice(&crc.to_le_bytes());
        e.push(tag);
        e.extend_from_slice(&payload);
        assert_eq!(deserialize_borrowed(&e), Err(err));
    }
}
