use crubclip::codec::{decrypt, KEY_LEN};
use crubclip::disk::FileState;
use crubclip::errors::{KeyProviderError, StoreError};
use crubclip::keys::SecretItemState;
use crubclip::store::HistoryStore;
use crubclip::wire::{decode, encode, load};

fn key_a() -> Vec<u8> {
    vec![7u8; KEY_LEN]
}

fn text_plain() -> Vec<u8> {
    b"text/plain".to_vec()
}

fn sample_store(key: &Vec<u8>) -> HistoryStore {
    let mut store = HistoryStore::new(10);
    store.add(key, &b"first".to_vec(), &text_plain(), 1).unwrap();
    store.add(key, &b"second".to_vec(), &text_plain(), 2).unwrap();
    store
}

fn payloads_of(store: &HistoryStore, key: &Vec<u8>) -> Vec<Vec<u8>> {
    let mut out = Vec::new();
    for i in 0..store.len() {
        let e = store.entry_at(i);
        out.push(decrypt(key, &e.nonce, &e.ciphertext).unwrap());
    }
    out
}

#[test]
fn encode_decode_round_trip() {
    let key = key_a();
    let store = sample_store(&key);
    let bytes = encode(&store);
    let entries = decode(&bytes).unwrap();
    assert_eq!(entries.len(), 2);
    let reloaded = HistoryStore::from_entries(entries, 10).unwrap();
    assert_eq!(payloads_of(&reloaded, &key), payloads_of(&store, &key));
}

#[test]
fn decode_of_empty_store_round_trips() {
    let store = HistoryStore::new(5);
    let bytes = encode(&store);
    let entries = decode(&bytes).unwrap();
    assert_eq!(entries.len(), 0);
}

#[test]
fn truncated_file_is_corrupt() {
    let key = key_a();
    let store = sample_store(&key);
    let mut bytes = encode(&store);
    bytes.truncate(bytes.len() - 1);
    assert_eq!(decode(&bytes).map(|_| ()), Err(StoreError::CorruptHistory));
}

#[test]
fn trailing_garbage_is_corrupt() {
    let key = key_a();
    let store = sample_store(&key);
    let mut bytes = encode(&store);
    bytes.push(0);
    assert_eq!(decode(&bytes).map(|_| ()), Err(StoreError::CorruptHistory));
}

#[test]
fn short_header_is_corrupt() {
    let bytes = vec![1u8, 2, 3];
    assert_eq!(decode(&bytes).map(|_| ()), Err(StoreError::CorruptHistory));
}

#[test]
fn non_decreasing_ids_are_corrupt() {
    let key = key_a();
    let store = sample_store(&key);
    let bytes = encode(&store);
    let mut entries = decode(&bytes).unwrap();
    entries[0].id = entries[1].id;
    assert_eq!(
        HistoryStore::from_entries(entries, 10).map(|_| ()),
        Err(StoreError::CorruptHistory)
    );
}

#[test]
fn load_evicts_beyond_the_bound() {
    let key = key_a();
    let mut store = HistoryStore::new(10);
    store.add(&key, &b"one".to_vec(), &text_plain(), 1).unwrap();
    store.add(&key, &b"two".to_vec(), &text_plain(), 2).unwrap();
    store.add(&key, &b"three".to_vec(), &text_plain(), 3).unwrap();
    let bytes = encode(&store);
    let reloaded = load(&bytes, 2).unwrap();
    assert_eq!(
        payloads_of(&reloaded, &key),
        vec![b"three".to_vec(), b"two".to_vec()]
    );
}

#[test]
fn crash_after_temp_write_preserves_target() {
    let key = key_a();
    let store = sample_store(&key);
    let mut fs = FileState::new();
    fs.persist(&store);
    let before = fs.target.clone().unwrap();

    // A later run starts rewriting: the temp file exists, the rename never
    // happens.
    let mut bigger = sample_store(&key);
    bigger.add(&key, &b"third".to_vec(), &text_plain(), 3).unwrap();
    fs.write_temp(encode(&bigger));
    fs.crash();

    assert_eq!(fs.target.as_ref().unwrap(), &before);
    let reloaded = load(fs.target.as_ref().unwrap(), 10).unwrap();
    assert_eq!(payloads_of(&reloaded, &key), payloads_of(&store, &key));
}

#[test]
fn persist_then_load_round_trips() {
    let key = key_a();
    let store = sample_store(&key);
    let mut fs = FileState::new();
    fs.persist(&store);
    let reloaded = load(fs.target.as_ref().unwrap(), 10).unwrap();
    assert_eq!(payloads_of(&reloaded, &key), payloads_of(&store, &key));
}

#[test]
fn key_created_on_first_run_and_reused_after() {
    let mut item = SecretItemState::absent();
    let fresh1 = vec![3u8; KEY_LEN];
    let fresh2 = vec![4u8; KEY_LEN];
    let k1 = item.get_or_create(fresh1.clone()).unwrap();
    assert_eq!(k1, fresh1);
    let k2 = item.get_or_create(fresh2).unwrap();
    assert_eq!(k2, k1);
}

#[test]
fn existing_secret_is_never_regenerated() {
    let stored = vec![9u8; KEY_LEN];
    let mut item = SecretItemState::holding(stored.clone());
    let fresh = vec![1u8; KEY_LEN];
    let k = item.get_or_create(fresh).unwrap();
    assert_eq!(k, stored);
}

#[test]
fn malformed_secret_is_reported() {
    let mut item = SecretItemState::holding(vec![9u8; KEY_LEN - 1]);
    let r = item.get_or_create(vec![1u8; KEY_LEN]);
    assert_eq!(r, Err(KeyProviderError::MalformedSecret));
}
