use elo_chain::address::Address;
use elo_chain::keys::Pubkey;
use elo_chain::records::ErrorCode;
use elo_chain::store::{RecordStore, StoredRecord};
use elo_chain::transitions::{
    add_file, create_network, initialize_user, join_network, update_elo, AddFile, CreateNetwork,
    InitializeUser, JoinNetwork, UpdateElo,
};

fn key(b: u8) -> Pubkey {
    Pubkey::new(vec![b; 32]).unwrap()
}

fn store() -> RecordStore {
    RecordStore::new(100_000)
}

fn read_profile(s: &RecordStore, k: &Pubkey) -> elo_chain::records::UserProfile {
    let addr = Address::User { key: k.clone() };
    match s.read(&addr) {
        Some(StoredRecord::User(u)) => elo_chain::records::UserProfile {
            authority: u.authority.clone(),
            username: u.username.clone(),
            encrypted_data: u.encrypted_data.clone(),
            files: Vec::new(),
            elo_score: u.elo_score,
            created_at: u.created_at,
        },
        _ => panic!("no profile"),
    }
}

fn file_count(s: &RecordStore, k: &Pubkey) -> usize {
    let addr = Address::User { key: k.clone() };
    match s.read(&addr) {
        Some(StoredRecord::User(u)) => u.files.len(),
        _ => panic!("no profile"),
    }
}

#[test]
fn initialize_user_sets_defaults() {
    let mut s = store();
    let a = key(1);
    let r = initialize_user(&mut s, &InitializeUser { authority: a.clone() }, "alice".to_string(), vec![9, 9], 77);
    assert!(r.is_ok());
    let p = read_profile(&s, &a);
    assert_eq!(p.elo_score, 1000);
    assert_eq!(p.created_at, 77);
    assert_eq!(p.username, "alice".to_string());
    assert_eq!(p.encrypted_data, vec![9, 9]);
    assert!(p.authority.key_eq(&a));
    assert_eq!(file_count(&s, &a), 0);
}

#[test]
fn initialize_user_twice_already_exists() {
    let mut s = store();
    let a = key(2);
    assert!(initialize_user(&mut s, &InitializeUser { authority: a.clone() }, "bob".to_string(), vec![1], 5).is_ok());
    let r = initialize_user(&mut s, &InitializeUser { authority: a.clone() }, "other".to_string(), vec![2], 6);
    assert_eq!(r, Err(ErrorCode::AlreadyExists));
    // the first record is untouched
    let p = read_profile(&s, &a);
    assert_eq!(p.username, "bob".to_string());
    assert_eq!(p.created_at, 5);
}

#[test]
fn add_file_appends_in_order() {
    let mut s = store();
    let a = key(3);
    initialize_user(&mut s, &InitializeUser { authority: a.clone() }, "carol".to_string(), vec![], 1).unwrap();
    for i in 0..3u64 {
        let ev = add_file(
            &mut s,
            &AddFile { authority: a.clone() },
            format!("hash{}", i),
            "sha".to_string(),
            format!("name{}", i),
            i,
            "ipfs://x".to_string(),
            None,
            vec![],
            10 + i as i64,
        )
        .unwrap();
        assert_eq!(ev.file_hash, format!("hash{}", i));
        assert_eq!(ev.timestamp, 10 + i as i64);
        assert!(ev.user.key_eq(&a));
        assert_eq!(file_count(&s, &a), (i + 1) as usize);
    }
    let addr = Address::User { key: a.clone() };
    match s.read(&addr) {
        Some(StoredRecord::User(u)) => {
            assert_eq!(u.files.len(), 3);
            for i in 0..3usize {
                assert_eq!(u.files[i].file_hash, format!("hash{}", i));
                assert_eq!(u.files[i].uploaded_at, 10 + i as i64);
                assert!(u.files[i].uploaded_at >= u.files[0].uploaded_at);
            }
        }
        _ => panic!("no profile"),
    }
}

#[test]
fn add_file_without_profile_not_found() {
    let mut s = store();
    let r = add_file(&mut s, &AddFile { authority: key(4) }, "h".to_string(), "s".to_string(), "n".to_string(), 0, "u".to_string(), None, vec![], 0);
    assert_eq!(r.err().unwrap(), ErrorCode::NotFound);
}

#[test]
fn add_file_storage_exhausted_on_tiny_limit() {
    let mut s = RecordStore::new(10);
    let a = key(5);
    initialize_user(&mut s, &InitializeUser { authority: a.clone() }, "d".to_string(), vec![], 0).unwrap();
    let r = add_file(&mut s, &AddFile { authority: a.clone() }, "h".to_string(), "s".to_string(), "n".to_string(), 1, "u".to_string(), Some(7), vec![1, 2, 3], 9);
    assert_eq!(r.err().unwrap(), ErrorCode::StorageExhausted);
    assert_eq!(file_count(&s, &a), 0);
}

#[test]
fn update_elo_saturates_low_and_high() {
    let mut s = store();
    let a = key(6);
    initialize_user(&mut s, &InitializeUser { authority: a.clone() }, "e".to_string(), vec![], 0).unwrap();
    // bring the score to 5, then drive it below zero
    update_elo(&mut s, &UpdateElo { authority: a.clone() }, -995).unwrap();
    assert_eq!(read_profile(&s, &a).elo_score, 5);
    update_elo(&mut s, &UpdateElo { authority: a.clone() }, -100).unwrap();
    assert_eq!(read_profile(&s, &a).elo_score, 0);
    // drive it past the top
    update_elo(&mut s, &UpdateElo { authority: a.clone() }, i64::MAX).unwrap();
    update_elo(&mut s, &UpdateElo { authority: a.clone() }, i64::MAX).unwrap();
    update_elo(&mut s, &UpdateElo { authority: a.clone() }, i64::MAX).unwrap();
    assert_eq!(read_profile(&s, &a).elo_score, u64::MAX);
    update_elo(&mut s, &UpdateElo { authority: a.clone() }, 100).unwrap();
    assert_eq!(read_profile(&s, &a).elo_score, u64::MAX);
}

#[test]
fn update_elo_without_profile_not_found() {
    let mut s = store();
    assert_eq!(update_elo(&mut s, &UpdateElo { authority: key(7) }, 1), Err(ErrorCode::NotFound));
}

#[test]
fn create_network_requires_profile_and_unique_name() {
    let mut s = store();
    let a = key(8);
    let r = create_network(&mut s, &CreateNetwork { authority: a.clone() }, "lab".to_string(), vec![1], vec![], 3);
    assert_eq!(r, Err(ErrorCode::NotFound));
    initialize_user(&mut s, &InitializeUser { authority: a.clone() }, "f".to_string(), vec![], 0).unwrap();
    assert!(create_network(&mut s, &CreateNetwork { authority: a.clone() }, "lab".to_string(), vec![1], vec![], 3).is_ok());
    let r2 = create_network(&mut s, &CreateNetwork { authority: a.clone() }, "lab".to_string(), vec![2], vec![], 4);
    assert_eq!(r2, Err(ErrorCode::AlreadyExists));
    // the creator is the sole member
    match s.read(&Address::Network { name: "lab".to_string() }) {
        Some(StoredRecord::Network(n)) => {
            assert_eq!(n.members.len(), 1);
            assert!(n.members[0].key_eq(&a));
            assert_eq!(n.created_at, 3);
        }
        _ => panic!("no network"),
    }
}

#[test]
fn join_network_empty_key_rejected_members_unchanged() {
    let mut s = store();
    let a = key(9);
    let b = key(10);
    initialize_user(&mut s, &InitializeUser { authority: a.clone() }, "a".to_string(), vec![], 0).unwrap();
    initialize_user(&mut s, &InitializeUser { authority: b.clone() }, "b".to_string(), vec![], 0).unwrap();
    create_network(&mut s, &CreateNetwork { authority: a.clone() }, "net".to_string(), vec![1], vec![], 0).unwrap();
    let net = Address::Network { name: "net".to_string() };
    let r = join_network(&mut s, &JoinNetwork { network: net.clone(), authority: b.clone() }, vec![], "b".to_string(), vec![]);
    assert_eq!(r.err().unwrap(), ErrorCode::InvalidJoinKey);
    match s.read(&net) {
        Some(StoredRecord::Network(n)) => assert_eq!(n.members.len(), 1),
        _ => panic!("no network"),
    }
}

#[test]
fn join_network_appends_even_duplicates() {
    let mut s = store();
    let a = key(11);
    initialize_user(&mut s, &InitializeUser { authority: a.clone() }, "a".to_string(), vec![], 0).unwrap();
    create_network(&mut s, &CreateNetwork { authority: a.clone() }, "net".to_string(), vec![1], vec![], 0).unwrap();
    let net = Address::Network { name: "net".to_string() };
    // the creator joins its own network: appended again, duplicate kept
    let ev = join_network(&mut s, &JoinNetwork { network: net.clone(), authority: a.clone() }, vec![1], "a".to_string(), vec![]).unwrap();
    assert!(ev.user.key_eq(&a));
    assert_eq!(ev.username, "a".to_string());
    match s.read(&net) {
        Some(StoredRecord::Network(n)) => {
            assert_eq!(n.members.len(), 2);
            assert!(n.members[0].key_eq(&a));
            assert!(n.members[1].key_eq(&a));
        }
        _ => panic!("no network"),
    }
}

#[test]
fn join_network_missing_records_not_found() {
    let mut s = store();
    let b = key(12);
    let net = Address::Network { name: "ghostnet".to_string() };
    let r = join_network(&mut s, &JoinNetwork { network: net.clone(), authority: b.clone() }, vec![1], "b".to_string(), vec![]);
    assert_eq!(r.err().unwrap(), ErrorCode::NotFound);
    // network exists but the joiner has no profile
    let a = key(13);
    initialize_user(&mut s, &InitializeUser { authority: a.clone() }, "a".to_string(), vec![], 0).unwrap();
    create_network(&mut s, &CreateNetwork { authority: a.clone() }, "ghostnet".to_string(), vec![1], vec![], 0).unwrap();
    let r2 = join_network(&mut s, &JoinNetwork { network: net, authority: b }, vec![1], "b".to_string(), vec![]);
    assert_eq!(r2.err().unwrap(), ErrorCode::NotFound);
}

#[test]
fn end_to_end_scenario() {
    let mut s = store();
    let a = key(21);
    let b = key(22);
    initialize_user(&mut s, &InitializeUser { authority: a.clone() }, "alice".to_string(), vec![], 100).unwrap();
    initialize_user(&mut s, &InitializeUser { authority: b.clone() }, "bob".to_string(), vec![], 101).unwrap();
    create_network(&mut s, &CreateNetwork { authority: a.clone() }, "lab".to_string(), vec![1, 2], vec![], 102).unwrap();
    let net = Address::Network { name: "lab".to_string() };
    join_network(&mut s, &JoinNetwork { network: net.clone(), authority: b.clone() }, vec![1], "bob".to_string(), vec![]).unwrap();
    match s.read(&net) {
        Some(StoredRecord::Network(n)) => {
            assert_eq!(n.members.len(), 2);
            assert!(n.members[1].key_eq(&b));
        }
        _ => panic!("no network"),
    }
    add_file(&mut s, &AddFile { authority: a.clone() }, "h".to_string(), "s".to_string(), "file.bin".to_string(), 10, "u".to_string(), None, vec![0; 10], 103).unwrap();
    assert_eq!(file_count(&s, &a), 1);
    update_elo(&mut s, &UpdateElo { authority: a.clone() }, -2000).unwrap();
    assert_eq!(read_profile(&s, &a).elo_score, 0);
}

#[test]
fn pubkey_rejects_wrong_length() {
    assert!(Pubkey::new(vec![1; 31]).is_none());
    assert!(Pubkey::new(vec![1; 33]).is_none());
    assert!(Pubkey::new(vec![1; 32]).is_some());
}

#[test]
fn addresses_collide_only_on_same_namespace_and_seed() {
    let u = Address::User { key: key(1) };
    let n = Address::Network { name: "1".to_string() };
    assert!(!u.addr_eq(&n));
    assert!(u.addr_eq(&Address::User { key: key(1) }));
    assert!(!u.addr_eq(&Address::User { key: key(2) }));
    assert!(n.addr_eq(&Address::Network { name: "1".to_string() }));
    assert!(!n.addr_eq(&Address::Network { name: "2".to_string() }));
}
