//! The fixed binary encoding, byte for byte, and its round trip.

use solana_gifs::codec::deserialize_base_account;
use solana_gifs::codec::serialize_base_account;
use solana_gifs::codec::serialized_len;
use solana_gifs::store::AddGifs;
use solana_gifs::store::BaseAccount;
use solana_gifs::store::StartStuffOff;
use solana_gifs::store::add_gifs;
use solana_gifs::store::start_stuff_off;

fn addr(b: u8) -> Vec<u8> {
    vec![b; 32]
}

fn store_with(entries: &[(&[u8], u8)]) -> BaseAccount {
    let mut slot: Option<BaseAccount> = None;
    assert_eq!(start_stuff_off(&mut slot, &StartStuffOff { funded: true }), Ok(()));
    let mut account = slot.expect("store was created");
    for (link, user) in entries {
        assert_eq!(add_gifs(&mut account, AddGifs { user: addr(*user) }, link.to_vec()), Ok(()));
    }
    account
}

#[test]
fn empty_store_serializes_to_twelve_zero_bytes() {
    let account = store_with(&[]);
    assert_eq!(serialize_base_account(&account), vec![0u8; 12]);
}

#[test]
fn one_entry_serializes_to_exact_bytes() {
    let account = store_with(&[(b"ab", 7)]);
    let mut expected: Vec<u8> = Vec::new();
    expected.extend_from_slice(&[1, 0, 0, 0, 0, 0, 0, 0]); // counter = 1
    expected.extend_from_slice(&[1, 0, 0, 0]); // one entry
    expected.extend_from_slice(&[2, 0, 0, 0]); // link is two bytes long
    expected.extend_from_slice(b"ab");
    expected.extend_from_slice(&[7; 32]);
    assert_eq!(serialize_base_account(&account), expected);
}

#[test]
fn serialized_len_matches_serialized_bytes() {
    let account = store_with(&[(b"http://a.gif", 1), (b"http://b.gif", 2)]);
    assert_eq!(serialized_len(&account), serialize_base_account(&account).len());
}

#[test]
fn round_trip_preserves_counter_and_entries() {
    let account = store_with(&[(b"http://a.gif", 1), (b"http://b.gif", 2)]);
    let bytes = serialize_base_account(&account);
    let back = deserialize_base_account(&bytes).expect("bytes parse back");
    assert_eq!(back, account);
}

#[test]
fn round_trip_of_empty_store() {
    let account = store_with(&[]);
    let bytes = serialize_base_account(&account);
    let back = deserialize_base_account(&bytes).expect("bytes parse back");
    assert_eq!(back.total_gifs, 0);
    assert!(back.gif_list.is_empty());
}

#[test]
fn hand_built_bytes_deserialize() {
    let mut bytes: Vec<u8> = Vec::new();
    bytes.extend_from_slice(&[2, 0, 0, 0, 0, 0, 0, 0]); // counter = 2
    bytes.extend_from_slice(&[2, 0, 0, 0]); // two entries
    bytes.extend_from_slice(&[1, 0, 0, 0]); // first link, one byte
    bytes.extend_from_slice(b"x");
    bytes.extend_from_slice(&[5; 32]);
    bytes.extend_from_slice(&[0, 0, 0, 0]); // second link is empty
    bytes.extend_from_slice(&[6; 32]);
    let account = deserialize_base_account(&bytes).expect("bytes parse");
    assert_eq!(account.total_gifs, 2);
    assert_eq!(account.gif_list.len(), 2);
    assert_eq!(account.gif_list[0].gif_link, b"x".to_vec());
    assert_eq!(account.gif_list[0].user_address, addr(5));
    assert_eq!(account.gif_list[1].gif_link, Vec::<u8>::new());
    assert_eq!(account.gif_list[1].user_address, addr(6));
}

#[test]
fn too_short_input_is_rejected() {
    assert_eq!(deserialize_base_account(&Vec::new()), None);
    assert_eq!(deserialize_base_account(&vec![0u8; 11]), None);
}

#[test]
fn counter_not_matching_entry_count_is_rejected() {
    let account = store_with(&[(b"ab", 7)]);
    let mut bytes = serialize_base_account(&account);
    bytes[0] = 2; // counter says two, but one entry follows
    assert_eq!(deserialize_base_account(&bytes), None);
}

#[test]
fn trailing_bytes_are_rejected() {
    let account = store_with(&[(b"ab", 7)]);
    let mut bytes = serialize_base_account(&account);
    bytes.push(0);
    assert_eq!(deserialize_base_account(&bytes), None);
}

#[test]
fn truncated_entry_is_rejected() {
    let account = store_with(&[(b"ab", 7)]);
    let mut bytes = serialize_base_account(&account);
    bytes.pop();
    assert_eq!(deserialize_base_account(&bytes), None);
}
