use elo_chain::codec::{
    decode_file_record, decode_network, decode_string_at, decode_u64_le, decode_user_profile,
    encode_file_record, encode_network, encode_string, encode_u32_le, encode_u64_le,
    encode_user_profile,
};
use elo_chain::keys::Pubkey;
use elo_chain::records::{ErrorCode, FileRecord, Network, UserProfile};

fn key(b: u8) -> Pubkey {
    Pubkey::new(vec![b; 32]).unwrap()
}

fn sample_record(tag: u64) -> FileRecord {
    FileRecord {
        file_hash: format!("hash-{}", tag),
        sha256_hash: "deadbeef".to_string(),
        file_name: "paper.pdf".to_string(),
        file_size: 1234 + tag,
        ipfs_url: "ipfs://QmX".to_string(),
        network_id: Some(tag),
        encrypted_data: vec![1, 2, 3],
        uploaded_at: -5,
    }
}

#[test]
fn u32_le_exact_bytes() {
    let mut out = Vec::new();
    encode_u32_le(&mut out, 0x01020304);
    assert_eq!(out, vec![0x04, 0x03, 0x02, 0x01]);
}

#[test]
fn u64_le_round_trip_exact_bytes() {
    let mut out = Vec::new();
    encode_u64_le(&mut out, 0x0102030405060708);
    assert_eq!(out, vec![0x08, 0x07, 0x06, 0x05, 0x04, 0x03, 0x02, 0x01]);
    let (x, end) = decode_u64_le(&out, 0).unwrap();
    assert_eq!(x, 0x0102030405060708);
    assert_eq!(end, 8);
}

#[test]
fn string_encodes_utf8_with_length_prefix() {
    let mut out = Vec::new();
    encode_string(&mut out, &"\u{e9}".to_string());
    assert_eq!(out, vec![2, 0, 0, 0, 0xC3, 0xA9]);
    let (s, end) = decode_string_at(&out, 0).unwrap();
    assert_eq!(s, "\u{e9}".to_string());
    assert_eq!(end, 6);
}

#[test]
fn file_record_round_trip() {
    let f = sample_record(7);
    let mut bytes = Vec::new();
    encode_file_record(&mut bytes, &f);
    let g = decode_file_record(&bytes).unwrap();
    assert_eq!(g.file_hash, f.file_hash);
    assert_eq!(g.sha256_hash, f.sha256_hash);
    assert_eq!(g.file_name, f.file_name);
    assert_eq!(g.file_size, f.file_size);
    assert_eq!(g.ipfs_url, f.ipfs_url);
    assert_eq!(g.network_id, f.network_id);
    assert_eq!(g.encrypted_data, f.encrypted_data);
    assert_eq!(g.uploaded_at, f.uploaded_at);
}

#[test]
fn file_record_round_trip_empty_fields_and_absent_id() {
    let f = FileRecord {
        file_hash: String::new(),
        sha256_hash: String::new(),
        file_name: String::new(),
        file_size: 0,
        ipfs_url: String::new(),
        network_id: None,
        encrypted_data: Vec::new(),
        uploaded_at: 0,
    };
    let mut bytes = Vec::new();
    encode_file_record(&mut bytes, &f);
    let g = decode_file_record(&bytes).unwrap();
    assert_eq!(g.file_hash, String::new());
    assert_eq!(g.network_id, None);
    assert_eq!(g.encrypted_data, Vec::<u8>::new());
    assert_eq!(g.uploaded_at, 0);
}

#[test]
fn user_profile_round_trip() {
    let u = UserProfile {
        authority: key(42),
        username: "alice".to_string(),
        encrypted_data: vec![5, 6, 7],
        files: vec![sample_record(1), sample_record(2)],
        elo_score: 1000,
        created_at: 99,
    };
    let bytes = encode_user_profile(&u);
    let v = decode_user_profile(&bytes).unwrap();
    assert!(v.authority.key_eq(&u.authority));
    assert_eq!(v.username, u.username);
    assert_eq!(v.encrypted_data, u.encrypted_data);
    assert_eq!(v.files.len(), 2);
    assert_eq!(v.files[0].file_hash, "hash-1".to_string());
    assert_eq!(v.files[1].file_size, 1236);
    assert_eq!(v.elo_score, 1000);
    assert_eq!(v.created_at, 99);
}

#[test]
fn network_round_trip() {
    let n = Network {
        authority: key(1),
        name: "lab".to_string(),
        encrypted_join_key: vec![9],
        encrypted_data: Vec::new(),
        members: vec![key(1), key(2), key(1)],
        files: vec![sample_record(3)],
        created_at: -1,
    };
    let bytes = encode_network(&n);
    let m = decode_network(&bytes).unwrap();
    assert!(m.authority.key_eq(&n.authority));
    assert_eq!(m.name, n.name);
    assert_eq!(m.encrypted_join_key, n.encrypted_join_key);
    assert_eq!(m.members.len(), 3);
    assert!(m.members[2].key_eq(&key(1)));
    assert_eq!(m.files.len(), 1);
    assert_eq!(m.created_at, -1);
}

#[test]
fn corrupt_input_is_rejected() {
    assert_eq!(decode_user_profile(&vec![1, 2, 3]).err().unwrap(), ErrorCode::CorruptData);
    assert_eq!(decode_network(&vec![]).err().unwrap(), ErrorCode::CorruptData);
    assert_eq!(decode_file_record(&vec![0xFF; 5]).err().unwrap(), ErrorCode::CorruptData);
    // trailing garbage after a valid record is rejected too
    let mut bytes = Vec::new();
    encode_file_record(&mut bytes, &sample_record(1));
    bytes.push(0);
    assert_eq!(decode_file_record(&bytes).err().unwrap(), ErrorCode::CorruptData);
}
