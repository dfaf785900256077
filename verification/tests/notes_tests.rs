use kv_store::notes::{note_from_bytes, note_to_bytes, Note, NoteStore};
use kv_store::{DecodeError, Key, KvError, KvStore, OwnedValue};

fn open_empty() -> NoteStore {
    // no file yet: the store starts empty
    NoteStore::open(None).expect("Failed to open store")
}

#[test]
fn test_create_and_get() {
    let mut store = open_empty();

    let id = store.create("A".to_string(), "Hello".to_string())
        .expect("Failed to create note");

    let note = store.get(id).expect("Failed to get note")
        .expect("Note should exist");

    assert_eq!(note.id, id);
    assert_eq!(note.title, "A");
    assert_eq!(note.body, "Hello");
}

#[test]
fn test_update_and_get() {
    let mut store = open_empty();

    let id = store.create("Original Title".to_string(), "Original Body".to_string())
        .expect("Failed to create note");

    let mut note = store.get(id).expect("Failed to get note")
        .expect("Note should exist");

    note.title = "Updated Title".to_string();
    note.body = "Updated Body".to_string();

    store.update(note).expect("Failed to update note");

    let updated_note = store.get(id).expect("Failed to get updated note")
        .expect("Updated note should exist");

    assert_eq!(updated_note.id, id);
    assert_eq!(updated_note.title, "Updated Title");
    assert_eq!(updated_note.body, "Updated Body");
}

#[test]
fn test_delete() {
    let mut store = open_empty();

    let id = store.create("To Delete".to_string(), "This will be deleted".to_string())
        .expect("Failed to create note");

    let note = store.get(id).expect("Failed to get note");
    assert!(note.is_some());

    store.delete(id).expect("Failed to delete note");

    let deleted_note = store.get(id).expect("Failed to get deleted note");
    assert!(deleted_note.is_none());
}

#[test]
fn test_persist_and_load() {
    let id;
    let image;
    {
        let mut store = open_empty();

        id = store.create("Persistent Note".to_string(), "This should persist".to_string())
            .expect("Failed to create note");

        image = store.save();
    }

    let store = NoteStore::open(Some(&image)).expect("Failed to open persisted store");

    let loaded_note = store.get(id).expect("Failed to get loaded note")
        .expect("Persisted note should exist");

    assert_eq!(loaded_note.id, id);
    assert_eq!(loaded_note.title, "Persistent Note");
    assert_eq!(loaded_note.body, "This should persist");
}

// ---- further cases ----

#[test]
fn ids_start_at_one_and_increase() {
    let mut store = open_empty();
    assert_eq!(store.next_id().unwrap(), 1);
    let a = store.create("a".into(), "".into()).unwrap();
    let b = store.create("b".into(), "".into()).unwrap();
    assert_eq!((a, b), (1, 2));
    assert_eq!(store.next_id().unwrap(), 3);
    assert_eq!(
        store.store().get_owned(&Key::Text("__meta_next_id".into())).unwrap(),
        Some(OwnedValue::Integer(3))
    );
}

#[test]
fn create_at_stores_the_given_time_and_no_tags() {
    let mut store = open_empty();
    let id = store.create_at("t".into(), "b".into(), 77).unwrap();
    let n = store.get(id).unwrap().unwrap();
    assert_eq!(n.updated_at, 77);
    assert!(n.tags.is_empty());
    assert!(n.image.is_none());
}

#[test]
fn list_meta_sorts_by_id_and_skips_text_keys() {
    let mut kv = KvStore::new();
    let mk = |id: u64, title: &str| Note {
        id,
        title: title.to_string(),
        body: String::new(),
        tags: vec!["x".to_string()],
        updated_at: id * 10,
        image: None,
    };
    kv.insert(Key::Integer(3), OwnedValue::Blob(note_to_bytes(&mk(3, "three"))));
    kv.insert(Key::Text("other".into()), OwnedValue::Bool(true));
    kv.insert(Key::Integer(1), OwnedValue::Blob(note_to_bytes(&mk(1, "one"))));
    kv.insert(Key::Integer(2), OwnedValue::Blob(note_to_bytes(&mk(2, "two"))));
    let store = NoteStore::from_store(kv);
    let metas = store.list_meta().unwrap();
    let ids: Vec<u64> = metas.iter().map(|m| m.id).collect();
    assert_eq!(ids, vec![1, 2, 3]);
    assert_eq!(metas[0].title, "one");
    assert_eq!(metas[2].updated_at, 30);
    assert_eq!(metas[1].tags, vec!["x".to_string()]);
}

#[test]
fn list_meta_errors() {
    let mut kv = KvStore::new();
    kv.insert(Key::Integer(1), OwnedValue::Integer(5));
    assert!(matches!(NoteStore::from_store(kv).list_meta(), Err(KvError::InvalidKeyType)));

    let mut kv = KvStore::new();
    kv.insert(Key::Integer(1), OwnedValue::Blob(vec![1, 2]));
    assert!(matches!(
        NoteStore::from_store(kv).list_meta(),
        Err(KvError::Corrupted(DecodeError::NoteDecodeFailed))
    ));
}

#[test]
fn get_errors() {
    let mut kv = KvStore::new();
    kv.insert(Key::Integer(4), OwnedValue::Text("not a note".into()));
    kv.insert(Key::Integer(5), OwnedValue::Blob(vec![0]));
    let store = NoteStore::from_store(kv);
    assert!(matches!(store.get(4), Err(KvError::InvalidKeyType)));
    assert!(matches!(
        store.get(5),
        Err(KvError::Corrupted(DecodeError::NoteDecodeFailed))
    ));
    assert!(matches!(store.get(6), Ok(None)));
}

#[test]
fn create_fails_on_a_meta_value_of_the_wrong_kind() {
    let mut kv = KvStore::new();
    kv.insert(Key::Text("__meta_next_id".into()), OwnedValue::Bool(true));
    let mut store = NoteStore::from_store(kv);
    assert!(matches!(store.create("a".into(), "b".into()), Err(KvError::InvalidKeyType)));
    assert!(store.list_meta().unwrap().is_empty());
}

#[test]
fn note_bytes_roundtrip_and_layout() {
    let n = Note {
        id: 7,
        title: "T".into(),
        body: "B".into(),
        tags: vec![],
        updated_at: 9,
        image: Some(vec![1, 2]),
    };
    let bytes = note_to_bytes(&n);
    // bincode: the u64 id in 8 little-endian bytes first, then the title's length.
    assert_eq!(&bytes[0..8], &7u64.to_le_bytes());
    assert_eq!(&bytes[8..16], &1u64.to_le_bytes());
    assert_eq!(bytes[16], b'T');
    let back = note_from_bytes(&bytes).unwrap();
    assert_eq!((back.id, back.title, back.body, back.updated_at, back.image), (7, "T".to_string(), "B".to_string(), 9, Some(vec![1, 2])));
    assert!(matches!(note_from_bytes(&[1, 2, 3]), Err(KvError::Corrupted(DecodeError::NoteDecodeFailed))));
}

#[test]
fn attach_image_sets_image_and_ignores_missing_notes() {
    let mut store = open_empty();
    let id = store.create("img".into(), "".into()).unwrap();
    store.attach_image(id, vec![9, 9]).unwrap();
    assert_eq!(store.get(id).unwrap().unwrap().image, Some(vec![9, 9]));
    let before = store.store().storage_len();
    store.attach_image(id + 100, vec![1]).unwrap();
    assert_eq!(store.store().storage_len(), before);
}

#[test]
fn update_at_stores_the_given_time() {
    let mut store = open_empty();
    let id = store.create_at("a".into(), "b".into(), 1).unwrap();
    let n = store.get(id).unwrap().unwrap();
    store.update_at(n, 500).unwrap();
    assert_eq!(store.get(id).unwrap().unwrap().updated_at, 500);
}

#[test]
fn open_reports_a_broken_image() {
    let mut image = open_empty().save();
    assert!(image.is_empty());
    image.extend_from_slice(&[1, 2, 3]);
    assert!(matches!(
        NoteStore::open(Some(&image)),
        Err(KvError::Corrupted(DecodeError::SliceTooShortForHeader))
    ));
}

#[test]
fn create_leaves_earlier_notes_alone() {
    let mut store = open_empty();
    let a = store.create_at("A".to_string(), "first".to_string(), 10).unwrap();
    let b = store.create_at("B".to_string(), "second".to_string(), 20).unwrap();
    let c = store.create_at("C".to_string(), "third".to_string(), 30).unwrap();
    assert_eq!((a, b, c), (1, 2, 3));
    let na = store.get(a).unwrap().unwrap();
    assert_eq!((na.title.as_str(), na.body.as_str(), na.updated_at), ("A", "first", 10));
    let nb = store.get(b).unwrap().unwrap();
    assert_eq!((nb.title.as_str(), nb.updated_at), ("B", 20));
    let ids: Vec<u64> = store.list_meta().unwrap().iter().map(|m| m.id).collect();
    assert_eq!(ids, vec![1, 2, 3]);
}

#[test]
fn saved_notes_list_alike_after_reopening() {
    let mut store = open_empty();
    store.create_at("Z".to_string(), "z".to_string(), 1).unwrap();
    store.create_at("Y".to_string(), "y".to_string(), 2).unwrap();
    let image = store.save();
    let back = NoteStore::open(Some(&image)).unwrap();
    let titles = |s: &NoteStore| -> Vec<(u64, String)> {
        s.list_meta().unwrap().iter().map(|m| (m.id, m.title.clone())).collect()
    };
    assert_eq!(titles(&store), titles(&back));
    assert_eq!(back.next_id().unwrap(), 3);
}

#[test]
fn note_bytes_full_layout() {
    let n = Note {
        id: 3,
        title: "hé".into(),
        body: "".into(),
        tags: vec!["a".into(), "bc".into()],
        updated_at: 258,
        image: None,
    };
    let mut expected = Vec::new();
    expected.extend_from_slice(&3u64.to_le_bytes());
    expected.extend_from_slice(&3u64.to_le_bytes());
    expected.extend_from_slice("hé".as_bytes());
    expected.extend_from_slice(&0u64.to_le_bytes());
    expected.extend_from_slice(&2u64.to_le_bytes());
    expected.extend_from_slice(&1u64.to_le_bytes());
    expected.extend_from_slice(b"a");
    expected.extend_from_slice(&2u64.to_le_bytes());
    expected.extend_from_slice(b"bc");
    expected.extend_from_slice(&258u64.to_le_bytes());
    expected.push(0);
    assert_eq!(note_to_bytes(&n), expected);

    let with_image = Note { image: Some(vec![9]), ..n };
    let bytes = note_to_bytes(&with_image);
    assert_eq!(&bytes[bytes.len() - 10..], &[1, 1, 0, 0, 0, 0, 0, 0, 0, 9]);
}
