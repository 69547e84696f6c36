//! The state machine: five transitions over the record store. Each one
//! validates authorization and invariants, then reads, modifies and writes
//! one record; the whole transition is a pure function of the store contents
//! and the request, so each is specified against a spec-level twin.
//!
//! The `authority` handed to every transition is the verified signer of the
//! request: the host boundary has already checked the signature, and the
//! transitions compare it against the stored record's own authority field.

use vstd::prelude::*;
use vstd::pervasive::unreached;
use crate::address::{Address, AddressV, derive_user_address, derive_network_address};
use crate::codec::{spec_user_profile, spec_file_record, encode_user_profile, encode_file_record,
    lemma_records_body_push};
use crate::keys::Pubkey;
use crate::records::{ErrorCode, FileRecord, FileRecordV, UserProfile, UserProfileV, Network,
    NetworkV, FileUploaded, FileUploadedV, NetworkJoined, NetworkJoinedV, INITIAL_ELO_SCORE,
    str_fits, blob_fits};
use crate::store::{RecordStore, StoredRecord, StoredRecordV, Entry, EntryV, spec_lookup,
    spec_store_update, lemma_lookup_wf, lemma_wf_update, lemma_store_update_is_seq_update};

verus! {

/// The identities an `initialize_user` request touches: the verified signer,
/// who becomes the new profile's authority.
pub struct InitializeUser {
    pub authority: Pubkey,
}

/// The identities an `add_file` request touches: the verified signer, whose
/// own profile receives the record.
pub struct AddFile {
    pub authority: Pubkey,
}

/// The identities a `create_network` request touches: the verified signer,
/// who becomes the network's authority and first member.
pub struct CreateNetwork {
    pub authority: Pubkey,
}

/// The identities a `join_network` request touches: the network's derived
/// address and the verified signer who joins.
pub struct JoinNetwork {
    pub network: Address,
    pub authority: Pubkey,
}

/// The identities an `update_elo` request touches: the verified signer,
/// whose own profile's score changes.
pub struct UpdateElo {
    pub authority: Pubkey,
}

/// What `initialize_user` does to the store: rejects an occupied address,
/// otherwise allocates a fresh profile with score `INITIAL_ELO_SCORE`, no
/// files, and the transition's execution time.
pub open spec fn spec_initialize_user(
    s: Seq<EntryV>,
    authority: Seq<u8>,
    username: Seq<char>,
    encrypted_data: Seq<u8>,
    now: i64,
) -> (Seq<EntryV>, Result<(), ErrorCode>) {
    let addr = AddressV::User { key: authority };
    if spec_lookup(s, addr) is Some {
        (s, Err(ErrorCode::AlreadyExists))
    } else {
        let profile = UserProfileV {
            authority,
            username,
            encrypted_data,
            files: Seq::empty(),
            elo_score: INITIAL_ELO_SCORE,
            created_at: now,
        };
        (s.push(EntryV { address: addr, record: StoredRecordV::User(profile) }), Ok(()))
    }
}

/// Creates the signer's profile. Fails with `AlreadyExists` exactly when the
/// derived address is occupied; on success the new record and nothing else is
/// added.
pub fn initialize_user(
    store: &mut RecordStore,
    accounts: &InitializeUser,
    username: String,
    encrypted_data: Vec<u8>,
    now: i64,
) -> (r: Result<(), ErrorCode>)
    requires
        old(store).wf(),
        accounts.authority.wf(),
        str_fits(username@),
        blob_fits(encrypted_data@),
    ensures
        final(store).wf(),
        final(store).max_record_bytes == old(store).max_record_bytes,
        (final(store)@, r) == spec_initialize_user(
            old(store)@,
            accounts.authority@,
            username@,
            encrypted_data@,
            now,
        ),
{
    let addr = derive_user_address(&accounts.authority);
    let profile = UserProfile {
        authority: accounts.authority.clone(),
        username,
        encrypted_data,
        files: Vec::new(),
        elo_score: INITIAL_ELO_SCORE,
        created_at: now,
    };
    proof {
        assert(profile@.files =~= Seq::<FileRecordV>::empty());
    }
    match store.create(addr, StoredRecord::User(profile)) {
        Ok(()) => Ok(()),
        Err(e) => Err(e),
    }
}

/// What `add_file` does to the store: rejects a missing profile, rejects a
/// record that cannot grow within `max_record_bytes`, otherwise appends the
/// new file record at the end of the profile's list and reports the
/// `FileUploaded` event.
pub open spec fn spec_add_file(
    s: Seq<EntryV>,
    max_record_bytes: usize,
    authority: Seq<u8>,
    file_hash: Seq<char>,
    sha256_hash: Seq<char>,
    file_name: Seq<char>,
    file_size: u64,
    ipfs_url: Seq<char>,
    network_id: Option<u64>,
    encrypted_data: Seq<u8>,
    now: i64,
) -> (Seq<EntryV>, Result<FileUploadedV, ErrorCode>) {
    let addr = AddressV::User { key: authority };
    match spec_lookup(s, addr) {
        Some(StoredRecordV::User(u)) => {
            let fr = FileRecordV {
                file_hash,
                sha256_hash,
                file_name,
                file_size,
                ipfs_url,
                network_id,
                encrypted_data,
                uploaded_at: now,
            };
            let u2 = UserProfileV { files: u.files.push(fr), ..u };
            if u.files.len() + 1 > u32::MAX || spec_user_profile(u2).len() > max_record_bytes {
                (s, Err(ErrorCode::StorageExhausted))
            } else {
                (
                    spec_store_update(s, addr, StoredRecordV::User(u2)),
                    Ok(FileUploadedV { user: authority, file_hash, timestamp: now }),
                )
            }
        },
        _ => (s, Err(ErrorCode::NotFound)),
    }
}

/// Appends a file record to the signer's own profile. Fails with `NotFound`
/// exactly when the signer has no profile, and with `StorageExhausted`
/// exactly when the grown record would not fit the store's per-record limit;
/// on success the record lands at the end of the list, stamped `now`, and the
/// `FileUploaded` event is returned.
#[verifier::rlimit(100)]
pub fn add_file(
    store: &mut RecordStore,
    accounts: &AddFile,
    file_hash: String,
    sha256_hash: String,
    file_name: String,
    file_size: u64,
    ipfs_url: String,
    network_id: Option<u64>,
    encrypted_data: Vec<u8>,
    now: i64,
) -> (r: Result<FileUploaded, ErrorCode>)
    requires
        old(store).wf(),
        accounts.authority.wf(),
        str_fits(file_hash@),
        str_fits(sha256_hash@),
        str_fits(file_name@),
        str_fits(ipfs_url@),
        blob_fits(encrypted_data@),
    ensures
        final(store).wf(),
        final(store).max_record_bytes == old(store).max_record_bytes,
        ({
            let (s2, r2) = spec_add_file(
                old(store)@,
                old(store).max_record_bytes,
                accounts.authority@,
                file_hash@,
                sha256_hash@,
                file_name@,
                file_size,
                ipfs_url@,
                network_id,
                encrypted_data@,
                now,
            );
            &&& final(store)@ == s2
            &&& match (r, r2) {
                (Ok(ev), Ok(evv)) => ev@ == evv,
                (Err(e1), Err(e2)) => e1 == e2,
                _ => false,
            }
        }),
{
    let ghost oldv = store@;
    let addr = derive_user_address(&accounts.authority);
    let i = match store.find_index(&addr) {
        None => {
            return Err(ErrorCode::NotFound);
        },
        Some(i) => i,
    };
    proof {
        lemma_lookup_wf(store@, addr@);
    }
    let event_hash = file_hash.clone();
    let file_record = FileRecord {
        file_hash,
        sha256_hash,
        file_name,
        file_size,
        ipfs_url,
        network_id,
        encrypted_data,
        uploaded_at: now,
    };
    let ghost frv = file_record@;

    // Authorization guard and capacity check against the stored profile.
    let base_len: usize;
    {
        let e = &store.entries[i];
        proof {
            assert(store@[i as int] == store.entries@[i as int]@);
        }
        match &e.record {
            StoredRecord::User(u) => {
                if !u.authority.key_eq(&accounts.authority) {
                    // Unreachable in a well-formed store: the profile at the
                    // signer's derived address carries the signer's key.
                    return Err(ErrorCode::Unauthorized);
                }
                if u.files.len() >= (u32::MAX as usize) {
                    return Err(ErrorCode::StorageExhausted);
                }
                base_len = encode_user_profile(u).len();
            },
            StoredRecord::Network(_) => {
                proof {
                    assert(false);
                }
                return Err(ErrorCode::NotFound);
            },
        }
    }
    let mut fr_bytes: Vec<u8> = Vec::new();
    encode_file_record(&mut fr_bytes, &file_record);

    let ghost u = spec_lookup(oldv, addr@)->Some_0->User_0;
    let ghost u2 = UserProfileV { files: u.files.push(frv), ..u };
    proof {
        lemma_records_body_push(u.files, frv);
        assert(spec_user_profile(u2).len() == spec_user_profile(u).len() + spec_file_record(
            frv,
        ).len());
    }
    let grown_len = match base_len.checked_add(fr_bytes.len()) {
        None => {
            return Err(ErrorCode::StorageExhausted);
        },
        Some(total) => total,
    };
    if grown_len > store.max_record_bytes {
        return Err(ErrorCode::StorageExhausted);
    }

    // Commit: grow the record in place.
    let entry = store.entries.remove(i);
    let address = entry.address;
    let mut profile = match entry.record {
        StoredRecord::User(u) => u,
        StoredRecord::Network(_) => unreached(),
    };
    profile.files.push(file_record);
    store.entries.insert(i, Entry { address, record: StoredRecord::User(profile) });
    proof {
        assert(profile@.files =~= u.files.push(frv));
        assert(profile@ =~= u2);
        let ev = EntryV { address: addr@, record: StoredRecordV::User(u2) };
        assert(store@ =~= oldv.update(i as int, ev));
        lemma_store_update_is_seq_update(oldv, addr@, StoredRecordV::User(u2), i as int);
        lemma_wf_update(oldv, i as int, ev);
    }
    Ok(FileUploaded { user: accounts.authority.clone(), file_hash: event_hash, timestamp: now })
}

/// What `create_network` does to the store: demands an existing profile for
/// the creator (read-only), rejects an occupied name, otherwise allocates the
/// network with the creator as sole member and no files.
pub open spec fn spec_create_network(
    s: Seq<EntryV>,
    authority: Seq<u8>,
    network_name: Seq<char>,
    encrypted_join_key: Seq<u8>,
    encrypted_data: Seq<u8>,
    now: i64,
) -> (Seq<EntryV>, Result<(), ErrorCode>) {
    let addr = AddressV::Network { name: network_name };
    if spec_lookup(s, AddressV::User { key: authority }) is None {
        (s, Err(ErrorCode::NotFound))
    } else if spec_lookup(s, addr) is Some {
        (s, Err(ErrorCode::AlreadyExists))
    } else {
        let network = NetworkV {
            authority,
            name: network_name,
            encrypted_join_key,
            encrypted_data,
            members: seq![authority],
            files: Seq::empty(),
            created_at: now,
        };
        (s.push(EntryV { address: addr, record: StoredRecordV::Network(network) }), Ok(()))
    }
}

/// Creates a named network owned by the signer. Fails with `NotFound`
/// exactly when the signer has no profile, and with `AlreadyExists` exactly
/// when the name is taken; on success the network starts with the creator as
/// its only member.
pub fn create_network(
    store: &mut RecordStore,
    accounts: &CreateNetwork,
    network_name: String,
    encrypted_join_key: Vec<u8>,
    encrypted_data: Vec<u8>,
    now: i64,
) -> (r: Result<(), ErrorCode>)
    requires
        old(store).wf(),
        accounts.authority.wf(),
        str_fits(network_name@),
        blob_fits(encrypted_join_key@),
        blob_fits(encrypted_data@),
    ensures
        final(store).wf(),
        final(store).max_record_bytes == old(store).max_record_bytes,
        (final(store)@, r) == spec_create_network(
            old(store)@,
            accounts.authority@,
            network_name@,
            encrypted_join_key@,
            encrypted_data@,
            now,
        ),
{
    let profile_addr = derive_user_address(&accounts.authority);
    if !store.contains(&profile_addr) {
        return Err(ErrorCode::NotFound);
    }
    let addr = derive_network_address(&network_name);
    let network = Network {
        authority: accounts.authority.clone(),
        name: network_name,
        encrypted_join_key,
        encrypted_data,
        members: vec![accounts.authority.clone()],
        files: Vec::new(),
        created_at: now,
    };
    proof {
        assert(network@.members =~= seq![accounts.authority@]);
        assert(network@.files =~= Seq::<FileRecordV>::empty());
    }
    match store.create(addr, StoredRecord::Network(network)) {
        Ok(()) => Ok(()),
        Err(e) => Err(e),
    }
}

/// What `join_network` does to the store: demands the network and the
/// joiner's profile exist, rejects an empty candidate join key, otherwise
/// appends the joiner to the member list — duplicates included — and reports
/// the `NetworkJoined` event. The `username` rides along in the event only;
/// nothing of it is persisted.
pub open spec fn spec_join_network(
    s: Seq<EntryV>,
    network: AddressV,
    authority: Seq<u8>,
    candidate_join_key: Seq<u8>,
    username: Seq<char>,
) -> (Seq<EntryV>, Result<NetworkJoinedV, ErrorCode>) {
    match spec_lookup(s, network) {
        Some(StoredRecordV::Network(n)) => {
            if spec_lookup(s, AddressV::User { key: authority }) is None {
                (s, Err(ErrorCode::NotFound))
            } else if candidate_join_key.len() == 0 {
                (s, Err(ErrorCode::InvalidJoinKey))
            } else {
                let n2 = NetworkV { members: n.members.push(authority), ..n };
                (
                    spec_store_update(s, network, StoredRecordV::Network(n2)),
                    Ok(NetworkJoinedV { network, user: authority, username }),
                )
            }
        },
        _ => (s, Err(ErrorCode::NotFound)),
    }
}

/// Joins the signer to a network. Fails with `NotFound` exactly when the
/// addressed network or the signer's profile is missing, and with
/// `InvalidJoinKey` exactly when the candidate key is empty; on success the
/// signer is appended to the member list even if already present, and the
/// `NetworkJoined` event is returned. The candidate key is checked only for
/// non-emptiness, never against the stored `encrypted_join_key`; the
/// `encrypted_data` argument is accepted and dropped.
pub fn join_network(
    store: &mut RecordStore,
    accounts: &JoinNetwork,
    encrypted_join_key: Vec<u8>,
    username: String,
    _encrypted_data: Vec<u8>,
) -> (r: Result<NetworkJoined, ErrorCode>)
    requires
        old(store).wf(),
        accounts.authority.wf(),
    ensures
        final(store).wf(),
        final(store).max_record_bytes == old(store).max_record_bytes,
        ({
            let (s2, r2) = spec_join_network(
                old(store)@,
                accounts.network@,
                accounts.authority@,
                encrypted_join_key@,
                username@,
            );
            &&& final(store)@ == s2
            &&& match (r, r2) {
                (Ok(ev), Ok(evv)) => ev@ == evv,
                (Err(e1), Err(e2)) => e1 == e2,
                _ => false,
            }
        }),
{
    let ghost oldv = store@;
    let i = match store.find_index(&accounts.network) {
        None => {
            return Err(ErrorCode::NotFound);
        },
        Some(i) => i,
    };
    proof {
        lemma_lookup_wf(store@, accounts.network@);
    }
    {
        let e = &store.entries[i];
        proof {
            assert(store@[i as int] == store.entries@[i as int]@);
        }
        match &e.record {
            StoredRecord::Network(_) => {},
            StoredRecord::User(_) => {
                // The addressed record is a profile, not a network.
                return Err(ErrorCode::NotFound);
            },
        }
    }
    let profile_addr = derive_user_address(&accounts.authority);
    if !store.contains(&profile_addr) {
        return Err(ErrorCode::NotFound);
    }
    if encrypted_join_key.len() == 0 {
        return Err(ErrorCode::InvalidJoinKey);
    }

    let ghost n = spec_lookup(oldv, accounts.network@)->Some_0->Network_0;
    let ghost n2 = NetworkV { members: n.members.push(accounts.authority@), ..n };
    let entry = store.entries.remove(i);
    let address = entry.address;
    let mut network = match entry.record {
        StoredRecord::Network(n) => n,
        StoredRecord::User(_) => unreached(),
    };
    network.members.push(accounts.authority.clone());
    store.entries.insert(i, Entry { address, record: StoredRecord::Network(network) });
    proof {
        assert(network@.members =~= n.members.push(accounts.authority@));
        assert(network@ =~= n2);
        let ev = EntryV { address: accounts.network@, record: StoredRecordV::Network(n2) };
        assert(store@ =~= oldv.update(i as int, ev));
        lemma_store_update_is_seq_update(oldv, accounts.network@, StoredRecordV::Network(n2), i as int);
        lemma_wf_update(oldv, i as int, ev);
    }
    Ok(NetworkJoined {
        network: accounts.network.clone(),
        user: accounts.authority.clone(),
        username,
    })
}

/// Saturating signed addition on an unsigned score: the result clamps to
/// `0` and `u64::MAX` instead of wrapping.
pub open spec fn spec_saturating_add_signed(e: u64, d: i64) -> u64 {
    if e + d < 0 {
        0u64
    } else if e + d > u64::MAX {
        u64::MAX
    } else {
        (e + d) as u64
    }
}

/// What `update_elo` does to the store: rejects a missing profile, otherwise
/// replaces the score with the saturating sum and touches nothing else.
pub open spec fn spec_update_elo(s: Seq<EntryV>, authority: Seq<u8>, delta: i64) -> (
    Seq<EntryV>,
    Result<(), ErrorCode>,
) {
    let addr = AddressV::User { key: authority };
    match spec_lookup(s, addr) {
        Some(StoredRecordV::User(u)) => {
            let u2 = UserProfileV { elo_score: spec_saturating_add_signed(u.elo_score, delta), ..u };
            (spec_store_update(s, addr, StoredRecordV::User(u2)), Ok(()))
        },
        _ => (s, Err(ErrorCode::NotFound)),
    }
}

/// Adjusts the signer's reputation score by `delta`, saturating at `0` and
/// `u64::MAX`. Fails with `NotFound` exactly when the signer has no profile.
pub fn update_elo(store: &mut RecordStore, accounts: &UpdateElo, delta: i64) -> (r: Result<
    (),
    ErrorCode,
>)
    requires
        old(store).wf(),
        accounts.authority.wf(),
    ensures
        final(store).wf(),
        final(store).max_record_bytes == old(store).max_record_bytes,
        (final(store)@, r) == spec_update_elo(old(store)@, accounts.authority@, delta),
{
    let ghost oldv = store@;
    let addr = derive_user_address(&accounts.authority);
    let i = match store.find_index(&addr) {
        None => {
            return Err(ErrorCode::NotFound);
        },
        Some(i) => i,
    };
    proof {
        lemma_lookup_wf(store@, addr@);
    }
    let ghost u = spec_lookup(oldv, addr@)->Some_0->User_0;
    let ghost u2 = UserProfileV { elo_score: spec_saturating_add_signed(u.elo_score, delta), ..u };
    let entry = store.entries.remove(i);
    let address = entry.address;
    let mut profile = match entry.record {
        StoredRecord::User(u) => u,
        StoredRecord::Network(_) => unreached(),
    };
    if !profile.authority.key_eq(&accounts.authority) {
        // Unreachable in a well-formed store: the profile at the signer's
        // derived address carries the signer's key.
        proof {
            assert(false);
        }
        return Err(ErrorCode::Unauthorized);
    }
    profile.elo_score = match profile.elo_score.checked_add_signed(delta) {
        Some(v) => v,
        None => if delta >= 0 {
            u64::MAX
        } else {
            0
        },
    };
    store.entries.insert(i, Entry { address, record: StoredRecord::User(profile) });
    proof {
        assert(profile@ =~= u2);
        let ev = EntryV { address: addr@, record: StoredRecordV::User(u2) };
        assert(store@ =~= oldv.update(i as int, ev));
        lemma_store_update_is_seq_update(oldv, addr@, StoredRecordV::User(u2), i as int);
        lemma_wf_update(oldv, i as int, ev);
    }
    Ok(())
}

} // verus!
