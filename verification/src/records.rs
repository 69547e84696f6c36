//! The record types held by the store, their mathematical views and
//! well-formedness conditions, the notification events, and the error kinds.

use vstd::prelude::*;
use vstd::utf8::encode_utf8;
use crate::keys::{Pubkey, PUBKEY_LEN};

verus! {

/// The reputation score a fresh profile starts with.
pub const INITIAL_ELO_SCORE: u64 = 1000;

/// Why a transition was rejected. Every error is terminal for the enclosing
/// transition: the store is left exactly as it was.
#[derive(Clone, Copy, PartialEq, Eq, Structural, Debug)]
pub enum ErrorCode {
    /// The signer does not match the required authority.
    Unauthorized,
    /// A referenced record does not exist.
    NotFound,
    /// A creation collides with an occupied address.
    AlreadyExists,
    /// The candidate join key presented to `join_network` is empty.
    InvalidJoinKey,
    /// A record cannot grow to accept new data.
    StorageExhausted,
    /// Stored bytes do not decode as the expected record.
    CorruptData,
}

/// One uploaded file, embedded in a profile's list. Never mutated or removed
/// once appended.
pub struct FileRecord {
    pub file_hash: String,
    pub sha256_hash: String,
    pub file_name: String,
    pub file_size: u64,
    pub ipfs_url: String,
    pub network_id: Option<u64>,
    pub encrypted_data: Vec<u8>,
    pub uploaded_at: i64,
}

/// The mathematical view of a `FileRecord`.
#[verifier::ext_equal]
pub struct FileRecordV {
    pub file_hash: Seq<char>,
    pub sha256_hash: Seq<char>,
    pub file_name: Seq<char>,
    pub file_size: u64,
    pub ipfs_url: Seq<char>,
    pub network_id: Option<u64>,
    pub encrypted_data: Seq<u8>,
    pub uploaded_at: i64,
}

impl View for FileRecord {
    type V = FileRecordV;

    open spec fn view(&self) -> FileRecordV {
        FileRecordV {
            file_hash: self.file_hash@,
            sha256_hash: self.sha256_hash@,
            file_name: self.file_name@,
            file_size: self.file_size,
            ipfs_url: self.ipfs_url@,
            network_id: self.network_id,
            encrypted_data: self.encrypted_data@,
            uploaded_at: self.uploaded_at,
        }
    }
}

/// A string fits the record layout when its UTF-8 encoding fits a 32-bit
/// length prefix.
pub open spec fn str_fits(s: Seq<char>) -> bool {
    encode_utf8(s).len() <= u32::MAX
}

/// A byte blob fits the record layout when it fits a 32-bit length prefix.
pub open spec fn blob_fits(b: Seq<u8>) -> bool {
    b.len() <= u32::MAX
}

impl FileRecordV {
    /// Every variable-length field fits its 32-bit length prefix.
    pub open spec fn wf(&self) -> bool {
        &&& str_fits(self.file_hash)
        &&& str_fits(self.sha256_hash)
        &&& str_fits(self.file_name)
        &&& str_fits(self.ipfs_url)
        &&& blob_fits(self.encrypted_data)
    }
}

/// One per authority: a display name, an opaque encrypted blob, the list of
/// uploaded files and a reputation score.
pub struct UserProfile {
    pub authority: Pubkey,
    pub username: String,
    pub encrypted_data: Vec<u8>,
    pub files: Vec<FileRecord>,
    pub elo_score: u64,
    pub created_at: i64,
}

/// The mathematical view of a `UserProfile`.
#[verifier::ext_equal]
pub struct UserProfileV {
    pub authority: Seq<u8>,
    pub username: Seq<char>,
    pub encrypted_data: Seq<u8>,
    pub files: Seq<FileRecordV>,
    pub elo_score: u64,
    pub created_at: i64,
}

impl View for UserProfile {
    type V = UserProfileV;

    open spec fn view(&self) -> UserProfileV {
        UserProfileV {
            authority: self.authority@,
            username: self.username@,
            encrypted_data: self.encrypted_data@,
            files: self.files@.map_values(|f: FileRecord| f@),
            elo_score: self.elo_score,
            created_at: self.created_at,
        }
    }
}

impl UserProfileV {
    /// The authority has key length, every variable-length field fits its
    /// length prefix, and so does every embedded file record.
    pub open spec fn wf(&self) -> bool {
        &&& self.authority.len() == PUBKEY_LEN
        &&& str_fits(self.username)
        &&& blob_fits(self.encrypted_data)
        &&& self.files.len() <= u32::MAX
        &&& forall|i: int| 0 <= i < self.files.len() ==> (#[trigger] self.files[i]).wf()
    }
}

/// One per unique name: a creator, a join-key blob used as a gate token, the
/// member list (starts with the creator, append-only) and a shared file list.
pub struct Network {
    pub authority: Pubkey,
    pub name: String,
    pub encrypted_join_key: Vec<u8>,
    pub encrypted_data: Vec<u8>,
    pub members: Vec<Pubkey>,
    pub files: Vec<FileRecord>,
    pub created_at: i64,
}

/// The mathematical view of a `Network`.
#[verifier::ext_equal]
pub struct NetworkV {
    pub authority: Seq<u8>,
    pub name: Seq<char>,
    pub encrypted_join_key: Seq<u8>,
    pub encrypted_data: Seq<u8>,
    pub members: Seq<Seq<u8>>,
    pub files: Seq<FileRecordV>,
    pub created_at: i64,
}

impl View for Network {
    type V = NetworkV;

    open spec fn view(&self) -> NetworkV {
        NetworkV {
            authority: self.authority@,
            name: self.name@,
            encrypted_join_key: self.encrypted_join_key@,
            encrypted_data: self.encrypted_data@,
            members: self.members@.map_values(|k: Pubkey| k@),
            files: self.files@.map_values(|f: FileRecord| f@),
            created_at: self.created_at,
        }
    }
}

impl NetworkV {
    /// The authority and every member have key length; every variable-length
    /// field fits its length prefix.
    pub open spec fn wf(&self) -> bool {
        &&& self.authority.len() == PUBKEY_LEN
        &&& str_fits(self.name)
        &&& blob_fits(self.encrypted_join_key)
        &&& blob_fits(self.encrypted_data)
        &&& forall|i: int| 0 <= i < self.members.len() ==> (#[trigger] self.members[i]).len() == PUBKEY_LEN
        &&& self.files.len() <= u32::MAX
        &&& forall|i: int| 0 <= i < self.files.len() ==> (#[trigger] self.files[i]).wf()
    }
}

/// Notification emitted after `add_file` commits.
pub struct FileUploaded {
    pub user: Pubkey,
    pub file_hash: String,
    pub timestamp: i64,
}

/// The mathematical view of a `FileUploaded` event.
#[verifier::ext_equal]
pub struct FileUploadedV {
    pub user: Seq<u8>,
    pub file_hash: Seq<char>,
    pub timestamp: i64,
}

impl View for FileUploaded {
    type V = FileUploadedV;

    open spec fn view(&self) -> FileUploadedV {
        FileUploadedV { user: self.user@, file_hash: self.file_hash@, timestamp: self.timestamp }
    }
}

/// Notification emitted after `join_network` commits.
pub struct NetworkJoined {
    pub network: crate::address::Address,
    pub user: Pubkey,
    pub username: String,
}

/// The mathematical view of a `NetworkJoined` event.
#[verifier::ext_equal]
pub struct NetworkJoinedV {
    pub network: crate::address::AddressV,
    pub user: Seq<u8>,
    pub username: Seq<char>,
}

impl View for NetworkJoined {
    type V = NetworkJoinedV;

    open spec fn view(&self) -> NetworkJoinedV {
        NetworkJoinedV { network: self.network@, user: self.user@, username: self.username@ }
    }
}

} // verus!
