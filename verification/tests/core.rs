use crubclip::bridge::{ingest, ClipboardRead, IngestReport};
use crubclip::codec::{decrypt, encrypt, generate_key_material, KEY_LEN, NONCE_LEN, TAG_LEN};
use crubclip::errors::{ClipboardError, CodecError, IngestError, StoreError};
use crubclip::store::HistoryStore;

fn key_a() -> Vec<u8> {
    vec![7u8; KEY_LEN]
}

fn key_b() -> Vec<u8> {
    vec![8u8; KEY_LEN]
}

fn text_plain() -> Vec<u8> {
    b"text/plain".to_vec()
}

#[test]
fn generated_key_has_expected_length() {
    let k = generate_key_material().unwrap();
    assert_eq!(k.len(), KEY_LEN);
}

#[test]
fn round_trip_same_key() {
    let key = key_a();
    let payload = b"some clipboard contents".to_vec();
    let (nonce, ct) = encrypt(&key, &payload).unwrap();
    assert_eq!(nonce.len(), NONCE_LEN);
    assert_eq!(ct.len(), payload.len() + TAG_LEN);
    let back = decrypt(&key, &nonce, &ct).unwrap();
    assert_eq!(back, payload);
}

#[test]
fn round_trip_empty_payload() {
    let key = key_a();
    let payload: Vec<u8> = Vec::new();
    let (nonce, ct) = encrypt(&key, &payload).unwrap();
    let back = decrypt(&key, &nonce, &ct).unwrap();
    assert_eq!(back, payload);
}

#[test]
fn decrypt_with_different_key_fails() {
    let payload = b"secret".to_vec();
    let (nonce, ct) = encrypt(&key_a(), &payload).unwrap();
    let r = decrypt(&key_b(), &nonce, &ct);
    assert_eq!(r, Err(CodecError::DecodeError));
}

#[test]
fn decrypt_rejects_short_ciphertext() {
    let key = key_a();
    let nonce = vec![0u8; NONCE_LEN];
    let ct = vec![1u8; TAG_LEN - 1];
    assert_eq!(decrypt(&key, &nonce, &ct), Err(CodecError::DecodeError));
}

#[test]
fn decrypt_rejects_bad_nonce_length() {
    let key = key_a();
    let payload = b"x".to_vec();
    let (_nonce, ct) = encrypt(&key, &payload).unwrap();
    let bad_nonce = vec![0u8; NONCE_LEN + 1];
    assert_eq!(decrypt(&key, &bad_nonce, &ct), Err(CodecError::DecodeError));
}

#[test]
fn decrypt_rejects_tampered_ciphertext() {
    let key = key_a();
    let payload = b"to be tampered with".to_vec();
    let (nonce, mut ct) = encrypt(&key, &payload).unwrap();
    ct[0] ^= 0x01;
    assert_eq!(decrypt(&key, &nonce, &ct), Err(CodecError::DecodeError));
}

#[test]
fn add_stores_and_search_finds() {
    let key = key_a();
    let mut store = HistoryStore::new(10);
    let inserted = store.add(&key, &b"hello world".to_vec(), &text_plain(), 1).unwrap();
    assert!(inserted);
    assert_eq!(store.len(), 1);
    let (matches, skipped) = store.search(&key, &b"world".to_vec());
    assert_eq!(matches.len(), 1);
    assert_eq!(matches[0].payload, b"hello world".to_vec());
    assert_eq!(skipped, 0);
}

#[test]
fn dedup_same_payload_twice_stores_once() {
    let key = key_a();
    let mut store = HistoryStore::new(10);
    let first = store.add(&key, &b"same".to_vec(), &text_plain(), 1).unwrap();
    let second = store.add(&key, &b"same".to_vec(), &text_plain(), 2).unwrap();
    assert!(first);
    assert!(!second);
    assert_eq!(store.len(), 1);
}

#[test]
fn no_dedup_for_different_mime() {
    let key = key_a();
    let mut store = HistoryStore::new(10);
    store.add(&key, &b"same".to_vec(), &text_plain(), 1).unwrap();
    store.add(&key, &b"same".to_vec(), &b"text/html".to_vec(), 2).unwrap();
    assert_eq!(store.len(), 2);
}

#[test]
fn no_dedup_against_older_entry() {
    let key = key_a();
    let mut store = HistoryStore::new(10);
    store.add(&key, &b"one".to_vec(), &text_plain(), 1).unwrap();
    store.add(&key, &b"two".to_vec(), &text_plain(), 2).unwrap();
    store.add(&key, &b"one".to_vec(), &text_plain(), 3).unwrap();
    assert_eq!(store.len(), 3);
}

#[test]
fn eviction_keeps_most_recent() {
    let key = key_a();
    let mut store = HistoryStore::new(3);
    for (i, p) in [b"a1".to_vec(), b"a2".to_vec(), b"a3".to_vec(), b"a4".to_vec(), b"a5".to_vec()]
        .into_iter()
        .enumerate()
    {
        store.add(&key, &p, &text_plain(), i as u64).unwrap();
    }
    assert_eq!(store.len(), 3);
    let expect = [b"a5".to_vec(), b"a4".to_vec(), b"a3".to_vec()];
    for i in 0..3 {
        let e = store.entry_at(i);
        let pt = decrypt(&key, &e.nonce, &e.ciphertext).unwrap();
        assert_eq!(pt, expect[i]);
    }
}

#[test]
fn search_is_case_insensitive_and_ordered() {
    let key = key_a();
    let mut store = HistoryStore::new(10);
    store.add(&key, &b"hello world".to_vec(), &text_plain(), 1).unwrap();
    store.add(&key, &b"foo".to_vec(), &text_plain(), 2).unwrap();
    store.add(&key, &b"HELLO there".to_vec(), &text_plain(), 3).unwrap();
    let (matches, skipped) = store.search(&key, &b"hello".to_vec());
    assert_eq!(skipped, 0);
    assert_eq!(matches.len(), 2);
    assert_eq!(matches[0].payload, b"HELLO there".to_vec());
    assert_eq!(matches[1].payload, b"hello world".to_vec());
}

#[test]
fn binary_payload_never_matches() {
    let key = key_a();
    let mut store = HistoryStore::new(10);
    store.add(&key, &b"hello".to_vec(), &b"application/octet-stream".to_vec(), 1).unwrap();
    let (matches, skipped) = store.search(&key, &b"hello".to_vec());
    assert_eq!(matches.len(), 0);
    assert_eq!(skipped, 0);
}

#[test]
fn empty_query_matches_all_text_entries() {
    let key = key_a();
    let mut store = HistoryStore::new(10);
    store.add(&key, &b"alpha".to_vec(), &text_plain(), 1).unwrap();
    store.add(&key, &b"beta".to_vec(), &text_plain(), 2).unwrap();
    let (matches, _) = store.search(&key, &Vec::new());
    assert_eq!(matches.len(), 2);
}

#[test]
fn search_skips_and_counts_undecryptable_entries() {
    let key = key_a();
    let mut store = HistoryStore::new(10);
    store.add(&key, &b"good hello".to_vec(), &text_plain(), 1).unwrap();
    // An entry sealed under another key no longer decrypts here.
    let mut foreign = HistoryStore::new(10);
    foreign.add(&key_b(), &b"hello from elsewhere".to_vec(), &text_plain(), 2).unwrap();
    let bytes = crubclip::wire::encode(&foreign);
    let entries = crubclip::wire::decode(&bytes).unwrap();
    let mixed = {
        let mut all = entries;
        let own = store.entry_at(0).duplicate();
        let mut e = own;
        e.id = 2;
        all.insert(0, e);
        all
    };
    let mixed_store = HistoryStore::from_entries(mixed, 10).unwrap();
    let (matches, skipped) = mixed_store.search(&key, &b"hello".to_vec());
    assert_eq!(matches.len(), 1);
    assert_eq!(matches[0].payload, b"good hello".to_vec());
    assert_eq!(skipped, 1);
}

#[test]
fn delete_removes_named_ids() {
    let key = key_a();
    let mut store = HistoryStore::new(10);
    store.add(&key, &b"one".to_vec(), &text_plain(), 1).unwrap();
    store.add(&key, &b"two".to_vec(), &text_plain(), 2).unwrap();
    let id_of_two = store.entry_at(0).id;
    store.delete(&vec![id_of_two]);
    assert_eq!(store.len(), 1);
    let pt = decrypt(&key, &store.entry_at(0).nonce, &store.entry_at(0).ciphertext).unwrap();
    assert_eq!(pt, b"one".to_vec());
}

#[test]
fn delete_of_absent_id_is_noop() {
    let key = key_a();
    let mut store = HistoryStore::new(10);
    store.add(&key, &b"kept".to_vec(), &text_plain(), 1).unwrap();
    store.delete(&vec![999u64]);
    assert_eq!(store.len(), 1);
    store.delete(&vec![999u64]);
    assert_eq!(store.len(), 1);
}

#[test]
fn delete_by_query_removes_matching_entries() {
    let key = key_a();
    let mut store = HistoryStore::new(10);
    store.add(&key, &b"hello world".to_vec(), &text_plain(), 1).unwrap();
    store.add(&key, &b"foo".to_vec(), &text_plain(), 2).unwrap();
    store.add(&key, &b"HELLO there".to_vec(), &text_plain(), 3).unwrap();
    let removed = store.delete_by_query(&key, &b"hello".to_vec());
    assert_eq!(removed, 2);
    assert_eq!(store.len(), 1);
    let pt = decrypt(&key, &store.entry_at(0).nonce, &store.entry_at(0).ciphertext).unwrap();
    assert_eq!(pt, b"foo".to_vec());
}

#[test]
fn add_reports_id_space_exhausted() {
    let key = key_a();
    let mut store = HistoryStore::new(10);
    store.add(&key, &b"first".to_vec(), &text_plain(), 1).unwrap();
    let bytes = crubclip::wire::encode(&store);
    let mut entries = crubclip::wire::decode(&bytes).unwrap();
    entries[0].id = u64::MAX;
    let mut maxed = HistoryStore::from_entries(entries, 10).unwrap();
    let r = maxed.add(&key, &b"next".to_vec(), &text_plain(), 2);
    assert_eq!(r, Err(StoreError::IdSpaceExhausted));
    assert_eq!(maxed.len(), 1);
}

#[test]
fn ingest_content_adds_entry() {
    let key = key_a();
    let mut store = HistoryStore::new(10);
    let r = ingest(
        &mut store,
        &key,
        ClipboardRead::Content(b"from the clipboard".to_vec(), text_plain()),
        1,
    );
    assert_eq!(r, Ok(IngestReport::Added));
    assert_eq!(store.len(), 1);
}

#[test]
fn ingest_duplicate_content_dedups() {
    let key = key_a();
    let mut store = HistoryStore::new(10);
    ingest(&mut store, &key, ClipboardRead::Content(b"dup".to_vec(), text_plain()), 1).unwrap();
    let r = ingest(&mut store, &key, ClipboardRead::Content(b"dup".to_vec(), text_plain()), 2);
    assert_eq!(r, Ok(IngestReport::Deduplicated));
    assert_eq!(store.len(), 1);
}

#[test]
fn ingest_empty_and_no_seat_are_noops() {
    let key = key_a();
    let mut store = HistoryStore::new(10);
    assert_eq!(ingest(&mut store, &key, ClipboardRead::Empty, 1), Ok(IngestReport::NothingToAdd));
    assert_eq!(ingest(&mut store, &key, ClipboardRead::NoSeat, 2), Ok(IngestReport::NothingToAdd));
    assert_eq!(store.len(), 0);
}

#[test]
fn ingest_transport_failure_is_fatal() {
    let key = key_a();
    let mut store = HistoryStore::new(10);
    let r = ingest(&mut store, &key, ClipboardRead::Transport, 1);
    assert_eq!(r, Err(IngestError::Clipboard(ClipboardError::Transport)));
    assert_eq!(store.len(), 0);
}

#[test]
fn round_trip_through_library_pair() {
    let key = key_a();
    let payload = b"round trip me".to_vec();
    let back = crubclip::codec::encrypt_decrypt_round_trip(&key, &payload).unwrap();
    assert_eq!(back, payload);
}

#[test]
fn payload_for_copy_returns_decrypted_entry() {
    let key = key_a();
    let mut store = HistoryStore::new(10);
    store.add(&key, &b"copy me".to_vec(), &text_plain(), 1).unwrap();
    let id = store.entry_at(0).id;
    let (payload, mime) = store.payload_for_copy(&key, id).unwrap();
    assert_eq!(payload, b"copy me".to_vec());
    assert_eq!(mime, text_plain());
}

#[test]
fn payload_for_copy_of_unknown_id_errs() {
    let key = key_a();
    let mut store = HistoryStore::new(10);
    store.add(&key, &b"something".to_vec(), &text_plain(), 1).unwrap();
    let r = store.payload_for_copy(&key, 42).map(|_| ());
    assert_eq!(r, Err(crubclip::errors::LookupError::UnknownId));
}

#[test]
fn payload_for_copy_of_foreign_entry_errs() {
    let mut store = HistoryStore::new(10);
    store.add(&key_b(), &b"foreign".to_vec(), &text_plain(), 1).unwrap();
    let id = store.entry_at(0).id;
    let r = store.payload_for_copy(&key_a(), id).map(|_| ());
    assert_eq!(r, Err(crubclip::errors::LookupError::Undecryptable));
}

#[test]
fn find_by_id_locates_entries() {
    let key = key_a();
    let mut store = HistoryStore::new(10);
    store.add(&key, &b"one".to_vec(), &text_plain(), 1).unwrap();
    store.add(&key, &b"two".to_vec(), &text_plain(), 2).unwrap();
    let head_id = store.entry_at(0).id;
    assert_eq!(store.find_by_id(head_id), Some(0));
    assert_eq!(store.find_by_id(head_id + 5), None);
}
