//! The laws of the state machine, each proved from the transition
//! specifications in `transitions` and the lookup model in `store`.

use vstd::prelude::*;
use crate::address::AddressV;
use crate::records::{ErrorCode, FileRecordV, UserProfileV, NetworkV, INITIAL_ELO_SCORE};
use crate::store::{EntryV, StoredRecordV, spec_lookup, lemma_lookup_push,
    lemma_lookup_store_update};
use crate::transitions::{spec_initialize_user, spec_add_file, spec_join_network, spec_update_elo,
    spec_saturating_add_signed};

verus! {

/// Initializing a fresh authority succeeds, and an immediate read returns a
/// profile with score `INITIAL_ELO_SCORE`, no files, and the transition's
/// execution time as its creation time.
pub proof fn lemma_initialize_user_fresh(
    s: Seq<EntryV>,
    authority: Seq<u8>,
    username: Seq<char>,
    encrypted_data: Seq<u8>,
    now: i64,
)
    requires
        spec_lookup(s, AddressV::User { key: authority }) is None,
    ensures
        ({
            let (s2, r) = spec_initialize_user(s, authority, username, encrypted_data, now);
            let addr = AddressV::User { key: authority };
            &&& r is Ok
            &&& spec_lookup(s2, addr) == Some(
                StoredRecordV::User(
                    UserProfileV {
                        authority,
                        username,
                        encrypted_data,
                        files: Seq::empty(),
                        elo_score: INITIAL_ELO_SCORE,
                        created_at: now,
                    },
                ),
            )
            &&& forall|b: AddressV|
                b != addr ==> #[trigger] spec_lookup(s2, b) == spec_lookup(s, b)
        }),
{
    let addr = AddressV::User { key: authority };
    let (s2, r) = spec_initialize_user(s, authority, username, encrypted_data, now);
    let e = s2.last();
    lemma_lookup_push(s, e, addr);
    assert forall|b: AddressV| b != addr implies #[trigger] spec_lookup(s2, b) == spec_lookup(
        s,
        b,
    ) by {
        lemma_lookup_push(s, e, b);
    }
}

/// Initializing the same authority twice: the second attempt yields
/// `AlreadyExists` and leaves the store — the first record included —
/// untouched.
pub proof fn lemma_initialize_user_twice(
    s: Seq<EntryV>,
    authority: Seq<u8>,
    username1: Seq<char>,
    encrypted_data1: Seq<u8>,
    now1: i64,
    username2: Seq<char>,
    encrypted_data2: Seq<u8>,
    now2: i64,
)
    requires
        spec_initialize_user(s, authority, username1, encrypted_data1, now1).1 is Ok,
    ensures
        ({
            let (s1, r1) = spec_initialize_user(s, authority, username1, encrypted_data1, now1);
            let (s2, r2) = spec_initialize_user(s1, authority, username2, encrypted_data2, now2);
            &&& r2 == Err::<(), ErrorCode>(ErrorCode::AlreadyExists)
            &&& s2 == s1
        }),
{
    let addr = AddressV::User { key: authority };
    let (s1, r1) = spec_initialize_user(s, authority, username1, encrypted_data1, now1);
    lemma_lookup_push(s, s1.last(), addr);
}

/// `add_file` on a profile holding N files yields N + 1 files: the prior
/// records keep their places, the new record stands at the end carrying the
/// transition's time, and — when the clock never ran backwards, that is every
/// stored time is at most `now` — the appended time is no smaller than any
/// earlier entry's.
pub proof fn lemma_add_file_appends(
    s: Seq<EntryV>,
    max_record_bytes: usize,
    authority: Seq<u8>,
    file_hash: Seq<char>,
    sha256_hash: Seq<char>,
    file_name: Seq<char>,
    file_size: u64,
    ipfs_url: Seq<char>,
    network_id: Option<u64>,
    encrypted_data: Seq<u8>,
    now: i64,
)
    requires
        ({
            let fr = FileRecordV {
                file_hash,
                sha256_hash,
                file_name,
                file_size,
                ipfs_url,
                network_id,
                encrypted_data,
                uploaded_at: now,
            };
            &&& spec_lookup(s, AddressV::User { key: authority }) matches Some(
                StoredRecordV::User(u),
            )
            &&& u.files.len() + 1 <= u32::MAX
            &&& crate::codec::spec_user_profile(
                UserProfileV { files: u.files.push(fr), ..u },
            ).len() <= max_record_bytes
        }),
    ensures
        ({
            let addr = AddressV::User { key: authority };
            let u = spec_lookup(s, addr)->Some_0->User_0;
            let fr = FileRecordV {
                file_hash,
                sha256_hash,
                file_name,
                file_size,
                ipfs_url,
                network_id,
                encrypted_data,
                uploaded_at: now,
            };
            let (s2, r) = spec_add_file(
                s,
                max_record_bytes,
                authority,
                file_hash,
                sha256_hash,
                file_name,
                file_size,
                ipfs_url,
                network_id,
                encrypted_data,
                now,
            );
            let u2 = spec_lookup(s2, addr)->Some_0->User_0;
            &&& r is Ok
            &&& spec_lookup(s2, addr) matches Some(StoredRecordV::User(_))
            &&& u2 == UserProfileV { files: u.files.push(fr), ..u }
            &&& u2.files.len() == u.files.len() + 1
            &&& forall|k: int| 0 <= k < u.files.len() ==> #[trigger] u2.files[k] == u.files[k]
            &&& u2.files.last() == fr
            &&& u2.files.last().uploaded_at == now
            &&& (forall|k: int|
                0 <= k < u.files.len() ==> (#[trigger] u.files[k]).uploaded_at <= now) ==> (
            forall|k: int|
                0 <= k < u2.files.len() ==> (#[trigger] u2.files[k]).uploaded_at
                    <= u2.files.last().uploaded_at)
        }),
{
    let addr = AddressV::User { key: authority };
    let u = spec_lookup(s, addr)->Some_0->User_0;
    let fr = FileRecordV {
        file_hash,
        sha256_hash,
        file_name,
        file_size,
        ipfs_url,
        network_id,
        encrypted_data,
        uploaded_at: now,
    };
    let u2 = UserProfileV { files: u.files.push(fr), ..u };
    lemma_lookup_store_update(s, addr, StoredRecordV::User(u2), addr);
}

/// `update_elo` saturates: the new score is the clamped sum — `0` when the
/// sum would go negative, `u64::MAX` when it would overflow, the exact sum
/// otherwise — and nothing else of the profile changes.
pub proof fn lemma_update_elo_saturates(s: Seq<EntryV>, authority: Seq<u8>, delta: i64)
    requires
        spec_lookup(s, AddressV::User { key: authority }) matches Some(StoredRecordV::User(_)),
    ensures
        ({
            let addr = AddressV::User { key: authority };
            let u = spec_lookup(s, addr)->Some_0->User_0;
            let (s2, r) = spec_update_elo(s, authority, delta);
            let u2 = spec_lookup(s2, addr)->Some_0->User_0;
            &&& r is Ok
            &&& spec_lookup(s2, addr) matches Some(StoredRecordV::User(_))
            &&& u2 == UserProfileV {
                elo_score: spec_saturating_add_signed(u.elo_score, delta),
                ..u
            }
            &&& u.elo_score + delta < 0 ==> u2.elo_score == 0
            &&& u.elo_score + delta > u64::MAX ==> u2.elo_score == u64::MAX
            &&& 0 <= u.elo_score + delta <= u64::MAX ==> u2.elo_score == u.elo_score + delta
        }),
{
    let addr = AddressV::User { key: authority };
    let u = spec_lookup(s, addr)->Some_0->User_0;
    let u2 = UserProfileV { elo_score: spec_saturating_add_signed(u.elo_score, delta), ..u };
    lemma_lookup_store_update(s, addr, StoredRecordV::User(u2), addr);
}

/// `join_network` with an empty candidate key fails with `InvalidJoinKey`
/// and leaves the store — the member list included — untouched.
pub proof fn lemma_join_network_empty_key(
    s: Seq<EntryV>,
    network: AddressV,
    authority: Seq<u8>,
    candidate_join_key: Seq<u8>,
    username: Seq<char>,
)
    requires
        spec_lookup(s, network) matches Some(StoredRecordV::Network(_)),
        spec_lookup(s, AddressV::User { key: authority }) is Some,
        candidate_join_key.len() == 0,
    ensures
        ({
            let (s2, r) = spec_join_network(s, network, authority, candidate_join_key, username);
            &&& r == Err::<crate::records::NetworkJoinedV, ErrorCode>(ErrorCode::InvalidJoinKey)
            &&& s2 == s
        }),
{
}

/// `join_network` with a non-empty candidate key appends the caller to the
/// member list — even when the caller is already a member, so duplicate
/// membership is possible; the prior members keep their places.
pub proof fn lemma_join_network_appends_member(
    s: Seq<EntryV>,
    network: AddressV,
    authority: Seq<u8>,
    candidate_join_key: Seq<u8>,
    username: Seq<char>,
)
    requires
        spec_lookup(s, network) matches Some(StoredRecordV::Network(_)),
        spec_lookup(s, AddressV::User { key: authority }) is Some,
        candidate_join_key.len() > 0,
    ensures
        ({
            let n = spec_lookup(s, network)->Some_0->Network_0;
            let (s2, r) = spec_join_network(s, network, authority, candidate_join_key, username);
            let n2 = spec_lookup(s2, network)->Some_0->Network_0;
            &&& r is Ok
            &&& spec_lookup(s2, network) matches Some(StoredRecordV::Network(_))
            &&& n2 == NetworkV { members: n.members.push(authority), ..n }
            &&& n2.members.len() == n.members.len() + 1
            &&& forall|k: int| 0 <= k < n.members.len() ==> #[trigger] n2.members[k] == n.members[k]
            &&& n2.members.last() == authority
        }),
{
    let n = spec_lookup(s, network)->Some_0->Network_0;
    let n2 = NetworkV { members: n.members.push(authority), ..n };
    lemma_lookup_store_update(s, network, StoredRecordV::Network(n2), network);
}

} // verus!
