//! The record codec: a deterministic binary layout for each record type.
//!
//! Integers are little-endian and fixed-width; strings and byte blobs carry a
//! 32-bit length prefix (strings as their UTF-8 bytes); an optional integer
//! carries a one-byte tag; lists carry a 32-bit count. Field order is fixed,
//! so every record round-trips byte-exactly through `encode` / `decode`.

use vstd::prelude::*;
use vstd::utf8::{encode_utf8, valid_utf8, encode_utf8_valid_utf8, encode_utf8_decode_utf8};
use crate::keys::{Pubkey, PUBKEY_LEN};
use crate::records::{FileRecord, FileRecordV, UserProfile, UserProfileV, Network, NetworkV,
    ErrorCode};

verus! {

/// The four little-endian bytes of a 32-bit integer.
pub open spec fn spec_u32_le(x: u32) -> Seq<u8> {
    seq![
        (x & 0xff) as u8,
        ((x >> 8) & 0xff) as u8,
        ((x >> 16) & 0xff) as u8,
        ((x >> 24) & 0xff) as u8,
    ]
}

/// The eight little-endian bytes of a 64-bit integer.
pub open spec fn spec_u64_le(x: u64) -> Seq<u8> {
    seq![
        (x & 0xff) as u8,
        ((x >> 8) & 0xff) as u8,
        ((x >> 16) & 0xff) as u8,
        ((x >> 24) & 0xff) as u8,
        ((x >> 32) & 0xff) as u8,
        ((x >> 40) & 0xff) as u8,
        ((x >> 48) & 0xff) as u8,
        ((x >> 56) & 0xff) as u8,
    ]
}

/// A signed 64-bit integer is laid out as its two's-complement bit pattern.
pub open spec fn spec_i64_le(x: i64) -> Seq<u8> {
    spec_u64_le(x as u64)
}

/// A byte blob: 32-bit length prefix, then the bytes.
pub open spec fn spec_len_prefixed(b: Seq<u8>) -> Seq<u8>
    recommends
        b.len() <= u32::MAX,
{
    spec_u32_le(b.len() as u32) + b
}

/// A string: its UTF-8 bytes, length-prefixed.
pub open spec fn spec_string(s: Seq<char>) -> Seq<u8>
    recommends
        encode_utf8(s).len() <= u32::MAX,
{
    spec_len_prefixed(encode_utf8(s))
}

/// An optional 64-bit integer: tag byte 0 for absent, 1 followed by the value.
pub open spec fn spec_opt_u64(o: Option<u64>) -> Seq<u8> {
    match o {
        None => seq![0u8],
        Some(x) => seq![1u8] + spec_u64_le(x),
    }
}

/// The identity half of a file record: the two hashes, the name, the size.
pub open spec fn spec_file_record_meta(f: FileRecordV) -> Seq<u8> {
    spec_string(f.file_hash) + spec_string(f.sha256_hash) + spec_string(f.file_name)
        + spec_u64_le(f.file_size)
}

/// The payload half of a file record: the locator, the network tag, the blob,
/// the upload time.
pub open spec fn spec_file_record_payload(f: FileRecordV) -> Seq<u8> {
    spec_string(f.ipfs_url) + spec_opt_u64(f.network_id) + spec_len_prefixed(f.encrypted_data)
        + spec_i64_le(f.uploaded_at)
}

/// A file record: every field in declaration order.
pub open spec fn spec_file_record(f: FileRecordV) -> Seq<u8> {
    spec_file_record_meta(f) + spec_file_record_payload(f)
}

/// The concatenated encodings of a list of file records, without the count.
pub open spec fn spec_records_body(fs: Seq<FileRecordV>) -> Seq<u8>
    decreases fs.len(),
{
    if fs.len() == 0 {
        Seq::empty()
    } else {
        spec_file_record(fs[0]) + spec_records_body(fs.drop_first())
    }
}

/// A list of file records: 32-bit count, then each record in order.
pub open spec fn spec_file_records(fs: Seq<FileRecordV>) -> Seq<u8>
    recommends
        fs.len() <= u32::MAX,
{
    spec_u32_le(fs.len() as u32) + spec_records_body(fs)
}

/// The concatenated member keys, each `PUBKEY_LEN` raw bytes, without the count.
pub open spec fn spec_members_body(ms: Seq<Seq<u8>>) -> Seq<u8>
    decreases ms.len(),
{
    if ms.len() == 0 {
        Seq::empty()
    } else {
        ms[0] + spec_members_body(ms.drop_first())
    }
}

/// A member list: 32-bit count, then each key's raw bytes in order.
pub open spec fn spec_members(ms: Seq<Seq<u8>>) -> Seq<u8>
    recommends
        ms.len() <= u32::MAX,
{
    spec_u32_le(ms.len() as u32) + spec_members_body(ms)
}

/// The identity half of a user profile: authority key (raw), username,
/// encrypted blob.
pub open spec fn spec_user_profile_ident(u: UserProfileV) -> Seq<u8> {
    u.authority + spec_string(u.username) + spec_len_prefixed(u.encrypted_data)
}

/// The state half of a user profile: file list, score, creation time.
pub open spec fn spec_user_profile_state(u: UserProfileV) -> Seq<u8> {
    spec_file_records(u.files) + spec_u64_le(u.elo_score) + spec_i64_le(u.created_at)
}

/// A user profile: every field in declaration order.
pub open spec fn spec_user_profile(u: UserProfileV) -> Seq<u8> {
    spec_user_profile_ident(u) + spec_user_profile_state(u)
}

/// The identity half of a network: authority key (raw), name, join key,
/// encrypted blob.
pub open spec fn spec_network_ident(n: NetworkV) -> Seq<u8> {
    n.authority + spec_string(n.name) + spec_len_prefixed(n.encrypted_join_key)
        + spec_len_prefixed(n.encrypted_data)
}

/// The state half of a network: member list, file list, creation time.
pub open spec fn spec_network_state(n: NetworkV) -> Seq<u8> {
    spec_members(n.members) + spec_file_records(n.files) + spec_i64_le(n.created_at)
}

/// A network: every field in declaration order.
pub open spec fn spec_network(n: NetworkV) -> Seq<u8> {
    spec_network_ident(n) + spec_network_state(n)
}

/// The bytes of `s` carry `payload` starting at position `pos`.
pub open spec fn starts_at(s: Seq<u8>, pos: int, payload: Seq<u8>) -> bool {
    &&& 0 <= pos
    &&& pos + payload.len() <= s.len()
    &&& s.subrange(pos, pos + payload.len()) == payload
}

/// A carried concatenation splits into its carried parts.
pub proof fn lemma_starts_at_concat(s: Seq<u8>, pos: int, a: Seq<u8>, b: Seq<u8>)
    requires
        starts_at(s, pos, a + b),
    ensures
        starts_at(s, pos, a),
        starts_at(s, pos + a.len(), b),
{
    assert(s.subrange(pos, pos + a.len()) =~= a);
    assert forall|k: int| 0 <= k < b.len() implies s[pos + a.len() + k] == b[k] by {
        assert((a + b)[a.len() + k] == b[k]);
        assert(s.subrange(pos, pos + (a + b).len())[a.len() + k] == (a + b)[a.len() + k]);
    }
    assert(s.subrange(pos + a.len(), pos + a.len() + b.len()) =~= b);
}

/// Appends every byte of `src` to `out`.
pub fn push_all(out: &mut Vec<u8>, src: &Vec<u8>)
    ensures
        final(out)@ == old(out)@ + src@,
{
    let mut i: usize = 0;
    while i < src.len()
        invariant
            i <= src@.len(),
            out@ == old(out)@ + src@.take(i as int),
        decreases src@.len() - i,
    {
        out.push(src[i]);
        i = i + 1;
        proof {
            assert(old(out)@ + src@.take(i - 1) + seq![src@[i - 1]] =~= old(out)@ + src@.take(
                i as int,
            ));
        }
    }
    proof {
        assert(old(out)@ + src@.take(src@.len() as int) =~= old(out)@ + src@);
    }
}

/// Appends the four little-endian bytes of `x` to `out`.
pub fn encode_u32_le(out: &mut Vec<u8>, x: u32)
    ensures
        final(out)@ == old(out)@ + spec_u32_le(x),
{
    out.push((x & 0xff) as u8);
    out.push(((x >> 8) & 0xff) as u8);
    out.push(((x >> 16) & 0xff) as u8);
    out.push(((x >> 24) & 0xff) as u8);
    proof {
        assert(out@ =~= old(out)@ + spec_u32_le(x));
    }
}

/// Appends the eight little-endian bytes of `x` to `out`.
pub fn encode_u64_le(out: &mut Vec<u8>, x: u64)
    ensures
        final(out)@ == old(out)@ + spec_u64_le(x),
{
    out.push((x & 0xff) as u8);
    out.push(((x >> 8) & 0xff) as u8);
    out.push(((x >> 16) & 0xff) as u8);
    out.push(((x >> 24) & 0xff) as u8);
    out.push(((x >> 32) & 0xff) as u8);
    out.push(((x >> 40) & 0xff) as u8);
    out.push(((x >> 48) & 0xff) as u8);
    out.push(((x >> 56) & 0xff) as u8);
    proof {
        assert(out@ =~= old(out)@ + spec_u64_le(x));
    }
}

/// Appends the eight little-endian bytes of the bit pattern of `x` to `out`.
pub fn encode_i64_le(out: &mut Vec<u8>, x: i64)
    ensures
        final(out)@ == old(out)@ + spec_i64_le(x),
{
    encode_u64_le(out, x as u64);
}

/// Appends a length-prefixed byte blob to `out`.
pub fn encode_bytes(out: &mut Vec<u8>, b: &Vec<u8>)
    requires
        b@.len() <= u32::MAX,
    ensures
        final(out)@ == old(out)@ + spec_len_prefixed(b@),
{
    encode_u32_le(out, b.len() as u32);
    push_all(out, b);
    proof {
        assert(out@ =~= old(out)@ + spec_len_prefixed(b@));
    }
}

/// Appends a length-prefixed string (as UTF-8 bytes) to `out`.
pub fn encode_string(out: &mut Vec<u8>, s: &String)
    requires
        encode_utf8(s@).len() <= u32::MAX,
    ensures
        final(out)@ == old(out)@ + spec_string(s@),
{
    let bs = s.as_str().as_bytes_vec();
    encode_bytes(out, &bs);
}

/// Appends a tagged optional 64-bit integer to `out`.
pub fn encode_opt_u64(out: &mut Vec<u8>, o: &Option<u64>)
    ensures
        final(out)@ == old(out)@ + spec_opt_u64(*o),
{
    match o {
        None => {
            out.push(0u8);
            proof {
                assert(out@ =~= old(out)@ + spec_opt_u64(None));
            }
        },
        Some(x) => {
            out.push(1u8);
            encode_u64_le(out, *x);
            proof {
                assert(out@ =~= old(out)@ + spec_opt_u64(Some(*x)));
            }
        },
    }
}

/// Appends the encoding of one file record to `out`.
pub fn encode_file_record(out: &mut Vec<u8>, f: &FileRecord)
    requires
        f@.wf(),
    ensures
        final(out)@ == old(out)@ + spec_file_record(f@),
{
    encode_string(out, &f.file_hash);
    encode_string(out, &f.sha256_hash);
    encode_string(out, &f.file_name);
    encode_u64_le(out, f.file_size);
    encode_string(out, &f.ipfs_url);
    encode_opt_u64(out, &f.network_id);
    encode_bytes(out, &f.encrypted_data);
    encode_i64_le(out, f.uploaded_at);
    proof {
        assert(out@ =~= old(out)@ + spec_file_record(f@));
    }
}

/// `spec_records_body` distributes over appending one record at the end.
#[verifier::rlimit(50)]
pub proof fn lemma_records_body_push(fs: Seq<FileRecordV>, f: FileRecordV)
    ensures
        spec_records_body(fs.push(f)) == spec_records_body(fs) + spec_file_record(f),
    decreases fs.len(),
{
    let p = fs.push(f);
    if fs.len() == 0 {
        assert(p[0] == f);
        assert(p.drop_first() =~= Seq::<FileRecordV>::empty());
        assert(spec_records_body(p.drop_first()) == Seq::<u8>::empty());
        assert(spec_records_body(p) == spec_file_record(f) + Seq::<u8>::empty());
        assert(spec_file_record(f) + Seq::<u8>::empty() =~= spec_records_body(fs)
            + spec_file_record(f));
    } else {
        assert(p[0] == fs[0]);
        assert(p.drop_first() =~= fs.drop_first().push(f));
        lemma_records_body_push(fs.drop_first(), f);
        assert(spec_records_body(p) == spec_file_record(fs[0]) + (spec_records_body(
            fs.drop_first(),
        ) + spec_file_record(f)));
        assert(spec_file_record(fs[0]) + (spec_records_body(fs.drop_first()) + spec_file_record(f))
            =~= (spec_file_record(fs[0]) + spec_records_body(fs.drop_first())) + spec_file_record(
            f,
        ));
    }
}

/// Appends the encoding of a list of file records to `out`.
pub fn encode_file_records(out: &mut Vec<u8>, fs: &Vec<FileRecord>)
    requires
        fs@.len() <= u32::MAX,
        forall|i: int| 0 <= i < fs@.len() ==> (#[trigger] fs@[i])@.wf(),
    ensures
        final(out)@ == old(out)@ + spec_file_records(fs@.map_values(|f: FileRecord| f@)),
{
    let ghost fsv = fs@.map_values(|f: FileRecord| f@);
    encode_u32_le(out, fs.len() as u32);
    let mut i: usize = 0;
    while i < fs.len()
        invariant
            i <= fs@.len(),
            fsv == fs@.map_values(|f: FileRecord| f@),
            fsv.len() == fs@.len() <= u32::MAX,
            forall|j: int| 0 <= j < fs@.len() ==> (#[trigger] fs@[j])@.wf(),
            out@ == old(out)@ + spec_u32_le(fs@.len() as u32) + spec_records_body(
                fsv.take(i as int),
            ),
        decreases fs@.len() - i,
    {
        encode_file_record(out, &fs[i]);
        i = i + 1;
        proof {
            assert(fsv.take(i - 1).push(fsv[i - 1]) =~= fsv.take(i as int));
            lemma_records_body_push(fsv.take(i - 1), fsv[i - 1]);
            assert(fs@[i - 1]@ == fsv[i - 1]);
        }
    }
    proof {
        assert(fsv.take(fsv.len() as int) =~= fsv);
        assert(out@ =~= old(out)@ + spec_file_records(fsv));
    }
}

/// `spec_members_body` distributes over appending one key at the end.
pub proof fn lemma_members_body_push(ms: Seq<Seq<u8>>, k: Seq<u8>)
    ensures
        spec_members_body(ms.push(k)) == spec_members_body(ms) + k,
    decreases ms.len(),
{
    let p = ms.push(k);
    if ms.len() == 0 {
        assert(p[0] == k);
        assert(p.drop_first() =~= Seq::<Seq<u8>>::empty());
        assert(spec_members_body(p.drop_first()) == Seq::<u8>::empty());
        assert(spec_members_body(p) == k + Seq::<u8>::empty());
        assert(k + Seq::<u8>::empty() =~= spec_members_body(ms) + k);
    } else {
        assert(p[0] == ms[0]);
        assert(p.drop_first() =~= ms.drop_first().push(k));
        lemma_members_body_push(ms.drop_first(), k);
        assert(spec_members_body(p) == ms[0] + (spec_members_body(ms.drop_first()) + k));
        assert(ms[0] + (spec_members_body(ms.drop_first()) + k) =~= (ms[0] + spec_members_body(
            ms.drop_first(),
        )) + k);
    }
}

/// Appends the encoding of a member list to `out`.
pub fn encode_members(out: &mut Vec<u8>, ms: &Vec<crate::keys::Pubkey>)
    requires
        ms@.len() <= u32::MAX,
    ensures
        final(out)@ == old(out)@ + spec_members(ms@.map_values(|k: crate::keys::Pubkey| k@)),
{
    let ghost msv = ms@.map_values(|k: crate::keys::Pubkey| k@);
    encode_u32_le(out, ms.len() as u32);
    let mut i: usize = 0;
    while i < ms.len()
        invariant
            i <= ms@.len(),
            msv == ms@.map_values(|k: crate::keys::Pubkey| k@),
            msv.len() == ms@.len() <= u32::MAX,
            out@ == old(out)@ + spec_u32_le(ms@.len() as u32) + spec_members_body(
                msv.take(i as int),
            ),
        decreases ms@.len() - i,
    {
        push_all(out, &ms[i].bytes);
        i = i + 1;
        proof {
            assert(msv.take(i - 1).push(msv[i - 1]) =~= msv.take(i as int));
            lemma_members_body_push(msv.take(i - 1), msv[i - 1]);
            assert(ms@[i - 1]@ == msv[i - 1]);
        }
    }
    proof {
        assert(msv.take(msv.len() as int) =~= msv);
        assert(out@ =~= old(out)@ + spec_members(msv));
    }
}

/// Encodes a user profile into a fresh byte vector.
pub fn encode_user_profile(u: &UserProfile) -> (out: Vec<u8>)
    requires
        u@.wf(),
    ensures
        out@ == spec_user_profile(u@),
{
    proof {
        assert forall|i: int| 0 <= i < u.files@.len() implies (#[trigger] u.files@[i])@.wf() by {
            assert(u@.files[i] == u.files@[i]@);
        }
    }
    let mut out: Vec<u8> = Vec::new();
    push_all(&mut out, &u.authority.bytes);
    encode_string(&mut out, &u.username);
    encode_bytes(&mut out, &u.encrypted_data);
    encode_file_records(&mut out, &u.files);
    encode_u64_le(&mut out, u.elo_score);
    encode_i64_le(&mut out, u.created_at);
    proof {
        assert(out@ =~= spec_user_profile(u@));
    }
    out
}

/// Encodes a network into a fresh byte vector.
pub fn encode_network(n: &Network) -> (out: Vec<u8>)
    requires
        n@.wf(),
        n@.members.len() <= u32::MAX,
    ensures
        out@ == spec_network(n@),
{
    proof {
        assert forall|i: int| 0 <= i < n.files@.len() implies (#[trigger] n.files@[i])@.wf() by {
            assert(n@.files[i] == n.files@[i]@);
        }
    }
    let mut out: Vec<u8> = Vec::new();
    push_all(&mut out, &n.authority.bytes);
    encode_string(&mut out, &n.name);
    encode_bytes(&mut out, &n.encrypted_join_key);
    encode_bytes(&mut out, &n.encrypted_data);
    encode_members(&mut out, &n.members);
    encode_file_records(&mut out, &n.files);
    encode_i64_le(&mut out, n.created_at);
    proof {
        assert(out@ =~= spec_network(n@));
    }
    out
}

/// Relies on `String::from_utf8`: returns the string whose UTF-8 encoding is
/// the given bytes, or nothing when the bytes are not valid UTF-8.
#[verifier::external_body]
fn string_from_utf8(bytes: Vec<u8>) -> (r: Option<String>)
    ensures
        r is Some <==> valid_utf8(bytes@),
        r is Some ==> encode_utf8(r->Some_0@) == bytes@,
{
    String::from_utf8(bytes).ok()
}

/// Copies `n` bytes of `input` starting at `pos`.
fn copy_range(input: &Vec<u8>, pos: usize, n: usize) -> (b: Vec<u8>)
    requires
        pos + n <= input@.len(),
    ensures
        b@ == input@.subrange(pos as int, pos + n),
{
    let len = input.len();
    let mut b: Vec<u8> = Vec::new();
    let mut i: usize = 0;
    while i < n
        invariant
            i <= n,
            pos + n <= input@.len(),
            input@.len() == len,
            b@ == input@.subrange(pos as int, pos + i),
        decreases n - i,
    {
        b.push(input[pos + i]);
        i = i + 1;
        proof {
            assert(b@ =~= input@.subrange(pos as int, pos + i));
        }
    }
    b
}

/// Reads four little-endian bytes at `pos`. Fails exactly when fewer than
/// four bytes remain; whenever the input carries `spec_u32_le(v)` at `pos`,
/// the result is exactly `v`.
pub fn decode_u32_le(input: &Vec<u8>, pos: usize) -> (r: Option<(u32, usize)>)
    requires
        pos <= input@.len(),
    ensures
        match r {
            Some(p) => p.1 == pos + 4 && p.1 <= input@.len() && input@.subrange(
                pos as int,
                p.1 as int,
            ) == spec_u32_le(p.0),
            None => input@.len() < pos + 4,
        },
        forall|v: u32|
            #[trigger] starts_at(input@, pos as int, spec_u32_le(v)) ==> r == Some::<(u32, usize)>(
                (v, (pos + 4) as usize),
            ),
{
    if input.len() - pos < 4 {
        return None;
    }
    let b0 = input[pos];
    let b1 = input[pos + 1];
    let b2 = input[pos + 2];
    let b3 = input[pos + 3];
    let x = (b0 as u32) | ((b1 as u32) << 8u32) | ((b2 as u32) << 16u32) | ((b3 as u32) << 24u32);
    proof {
        assert((x & 0xff) as u8 == b0 && ((x >> 8) & 0xff) as u8 == b1 && ((x >> 16) & 0xff) as u8
            == b2 && ((x >> 24) & 0xff) as u8 == b3) by (bit_vector)
            requires
                x == (b0 as u32) | ((b1 as u32) << 8u32) | ((b2 as u32) << 16u32) | ((b3
                    as u32) << 24u32),
        ;
        assert(input@.subrange(pos as int, pos + 4) =~= spec_u32_le(x));
        assert forall|v: u32| #[trigger] starts_at(input@, pos as int, spec_u32_le(v)) implies v
            == x by {
            assert(b0 == spec_u32_le(v)[0] && b1 == spec_u32_le(v)[1] && b2 == spec_u32_le(v)[2]
                && b3 == spec_u32_le(v)[3]);
            assert(v == x) by (bit_vector)
                requires
                    b0 == (v & 0xff) as u8 && b1 == ((v >> 8) & 0xff) as u8 && b2 == ((v >> 16)
                        & 0xff) as u8 && b3 == ((v >> 24) & 0xff) as u8 && x == (b0 as u32) | ((b1
                        as u32) << 8u32) | ((b2 as u32) << 16u32) | ((b3 as u32) << 24u32),
            ;
        }
    }
    Some((x, pos + 4))
}

/// Reads eight little-endian bytes at `pos`. Fails exactly when fewer than
/// eight bytes remain; whenever the input carries `spec_u64_le(v)` at `pos`,
/// the result is exactly `v`.
pub fn decode_u64_le(input: &Vec<u8>, pos: usize) -> (r: Option<(u64, usize)>)
    requires
        pos <= input@.len(),
    ensures
        match r {
            Some(p) => p.1 == pos + 8 && p.1 <= input@.len() && input@.subrange(
                pos as int,
                p.1 as int,
            ) == spec_u64_le(p.0),
            None => input@.len() < pos + 8,
        },
        forall|v: u64|
            #[trigger] starts_at(input@, pos as int, spec_u64_le(v)) ==> r == Some::<(u64, usize)>(
                (v, (pos + 8) as usize),
            ),
{
    if input.len() - pos < 8 {
        return None;
    }
    let b0 = input[pos];
    let b1 = input[pos + 1];
    let b2 = input[pos + 2];
    let b3 = input[pos + 3];
    let b4 = input[pos + 4];
    let b5 = input[pos + 5];
    let b6 = input[pos + 6];
    let b7 = input[pos + 7];
    let x = (b0 as u64) | ((b1 as u64) << 8u64) | ((b2 as u64) << 16u64) | ((b3 as u64) << 24u64)
        | ((b4 as u64) << 32u64) | ((b5 as u64) << 40u64) | ((b6 as u64) << 48u64) | ((b7
        as u64) << 56u64);
    proof {
        assert((x & 0xff) as u8 == b0 && ((x >> 8) & 0xff) as u8 == b1 && ((x >> 16) & 0xff) as u8
            == b2 && ((x >> 24) & 0xff) as u8 == b3 && ((x >> 32) & 0xff) as u8 == b4 && ((x >> 40)
            & 0xff) as u8 == b5 && ((x >> 48) & 0xff) as u8 == b6 && ((x >> 56) & 0xff) as u8
            == b7) by (bit_vector)
            requires
                x == (b0 as u64) | ((b1 as u64) << 8u64) | ((b2 as u64) << 16u64) | ((b3
                    as u64) << 24u64) | ((b4 as u64) << 32u64) | ((b5 as u64) << 40u64) | ((b6
                    as u64) << 48u64) | ((b7 as u64) << 56u64),
        ;
        assert(input@.subrange(pos as int, pos + 8) =~= spec_u64_le(x));
        assert forall|v: u64| #[trigger] starts_at(input@, pos as int, spec_u64_le(v)) implies v
            == x by {
            assert(b0 == spec_u64_le(v)[0] && b1 == spec_u64_le(v)[1] && b2 == spec_u64_le(v)[2]
                && b3 == spec_u64_le(v)[3] && b4 == spec_u64_le(v)[4] && b5 == spec_u64_le(v)[5]
                && b6 == spec_u64_le(v)[6] && b7 == spec_u64_le(v)[7]);
            assert(v == x) by (bit_vector)
                requires
                    b0 == (v & 0xff) as u8 && b1 == ((v >> 8) & 0xff) as u8 && b2 == ((v >> 16)
                        & 0xff) as u8 && b3 == ((v >> 24) & 0xff) as u8 && b4 == ((v >> 32)
                        & 0xff) as u8 && b5 == ((v >> 40) & 0xff) as u8 && b6 == ((v >> 48)
                        & 0xff) as u8 && b7 == ((v >> 56) & 0xff) as u8 && x == (b0 as u64) | ((b1
                        as u64) << 8u64) | ((b2 as u64) << 16u64) | ((b3 as u64) << 24u64) | ((b4
                        as u64) << 32u64) | ((b5 as u64) << 40u64) | ((b6 as u64) << 48u64) | ((b7
                        as u64) << 56u64),
            ;
        }
    }
    Some((x, pos + 8))
}

/// Reads a signed 64-bit integer (two's-complement, little-endian) at `pos`.
pub fn decode_i64_le(input: &Vec<u8>, pos: usize) -> (r: Option<(i64, usize)>)
    requires
        pos <= input@.len(),
    ensures
        match r {
            Some(p) => p.1 == pos + 8 && p.1 <= input@.len() && input@.subrange(
                pos as int,
                p.1 as int,
            ) == spec_i64_le(p.0),
            None => input@.len() < pos + 8,
        },
        forall|v: i64|
            #[trigger] starts_at(input@, pos as int, spec_i64_le(v)) ==> r == Some::<(i64, usize)>(
                (v, (pos + 8) as usize),
            ),
{
    match decode_u64_le(input, pos) {
        None => {
            proof {
                assert forall|v: i64| #[trigger] starts_at(input@, pos as int, spec_i64_le(v))
                    implies false by {
                    assert(starts_at(input@, pos as int, spec_u64_le(v as u64)));
                }
            }
            None
        },
        Some((y, end)) => {
            let x = y as i64;
            proof {
                assert((y as i64) as u64 == y) by (bit_vector);
                assert forall|v: i64| #[trigger] starts_at(input@, pos as int, spec_i64_le(v))
                    implies v == x by {
                    assert(starts_at(input@, pos as int, spec_u64_le(v as u64)));
                    assert(y == v as u64);
                    assert((v as u64) as i64 == v) by (bit_vector);
                }
            }
            Some((x, end))
        },
    }
}

/// Reads a length-prefixed byte blob at `pos`. Whenever the input carries
/// `spec_len_prefixed(v)` at `pos`, the result is exactly `v`.
pub fn decode_bytes_at(input: &Vec<u8>, pos: usize) -> (r: Option<(Vec<u8>, usize)>)
    requires
        pos <= input@.len(),
    ensures
        match r {
            Some(p) => pos <= p.1 <= input@.len() && p.0@.len() <= u32::MAX && p.1 == pos + 4
                + p.0@.len() && input@.subrange(pos as int, p.1 as int) == spec_len_prefixed(p.0@),
            None => true,
        },
        forall|v: Seq<u8>|
            v.len() <= u32::MAX && #[trigger] starts_at(input@, pos as int, spec_len_prefixed(v))
                ==> r is Some && r->Some_0.0@ == v && r->Some_0.1 == pos + 4 + v.len(),
{
    let (n, p1) = match decode_u32_le(input, pos) {
        None => {
            proof {
                assert forall|v: Seq<u8>|
                    v.len() <= u32::MAX && #[trigger] starts_at(
                        input@,
                        pos as int,
                        spec_len_prefixed(v),
                    ) implies false by {
                    lemma_starts_at_concat(input@, pos as int, spec_u32_le(v.len() as u32), v);
                }
            }
            return None;
        },
        Some(t) => t,
    };
    let nn = n as usize;
    if input.len() - p1 < nn {
        proof {
            assert forall|v: Seq<u8>|
                v.len() <= u32::MAX && #[trigger] starts_at(
                    input@,
                    pos as int,
                    spec_len_prefixed(v),
                ) implies false by {
                lemma_starts_at_concat(input@, pos as int, spec_u32_le(v.len() as u32), v);
                assert(n == v.len() as u32);
            }
        }
        return None;
    }
    let b = copy_range(input, p1, nn);
    proof {
        assert(input@.subrange(pos as int, pos + 4 + nn) =~= spec_u32_le(n) + b@);
        assert((b@.len() as u32) == n);
        assert forall|v: Seq<u8>|
            v.len() <= u32::MAX && #[trigger] starts_at(input@, pos as int, spec_len_prefixed(v))
            implies b@ == v by {
            lemma_starts_at_concat(input@, pos as int, spec_u32_le(v.len() as u32), v);
            assert(n == v.len() as u32);
            assert(v == input@.subrange(p1 as int, p1 + v.len()));
        }
    }
    Some((b, p1 + nn))
}

/// Reads a length-prefixed UTF-8 string at `pos`. Whenever the input carries
/// `spec_string(v)` at `pos` for a string that fits its prefix, the result is
/// exactly `v`.
pub fn decode_string_at(input: &Vec<u8>, pos: usize) -> (r: Option<(String, usize)>)
    requires
        pos <= input@.len(),
    ensures
        match r {
            Some(p) => pos <= p.1 <= input@.len() && crate::records::str_fits(p.0@) && p.1 == pos
                + 4 + encode_utf8(p.0@).len() && input@.subrange(pos as int, p.1 as int)
                == spec_string(p.0@),
            None => true,
        },
        forall|v: Seq<char>|
            encode_utf8(v).len() <= u32::MAX && #[trigger] starts_at(
                input@,
                pos as int,
                spec_string(v),
            ) ==> r is Some && r->Some_0.0@ == v && r->Some_0.1 == pos + 4 + encode_utf8(v).len(),
{
    let (b, end) = match decode_bytes_at(input, pos) {
        None => {
            return None;
        },
        Some(t) => t,
    };
    let ghost bv = b@;
    let s = match string_from_utf8(b) {
        None => {
            proof {
                assert forall|v: Seq<char>|
                    encode_utf8(v).len() <= u32::MAX && #[trigger] starts_at(
                        input@,
                        pos as int,
                        spec_string(v),
                    ) implies false by {
                    assert(bv == encode_utf8(v));
                    encode_utf8_valid_utf8(v);
                }
            }
            return None;
        },
        Some(s) => s,
    };
    proof {
        assert(spec_string(s@) == spec_len_prefixed(bv));
        assert forall|v: Seq<char>|
            encode_utf8(v).len() <= u32::MAX && #[trigger] starts_at(
                input@,
                pos as int,
                spec_string(v),
            ) implies s@ == v by {
            assert(bv == encode_utf8(v));
            encode_utf8_decode_utf8(v);
            encode_utf8_decode_utf8(s@);
        }
    }
    Some((s, end))
}

/// Reads a tagged optional 64-bit integer at `pos`.
pub fn decode_opt_u64_at(input: &Vec<u8>, pos: usize) -> (r: Option<(Option<u64>, usize)>)
    requires
        pos <= input@.len(),
    ensures
        match r {
            Some(p) => pos <= p.1 <= input@.len() && p.1 == pos + spec_opt_u64(p.0).len()
                && input@.subrange(pos as int, p.1 as int) == spec_opt_u64(p.0),
            None => true,
        },
        forall|v: Option<u64>|
            #[trigger] starts_at(input@, pos as int, spec_opt_u64(v)) ==> r is Some
                && r->Some_0.0 == v && r->Some_0.1 == pos + spec_opt_u64(v).len(),
{
    if input.len() - pos < 1 {
        return None;
    }
    let tag = input[pos];
    if tag == 0 {
        proof {
            assert(input@.subrange(pos as int, pos + 1) =~= spec_opt_u64(None));
            assert forall|v: Option<u64>| #[trigger] starts_at(input@, pos as int, spec_opt_u64(v))
                implies v is None by {
                if v is Some {
                    assert(input@[pos as int] == spec_opt_u64(v)[0]);
                }
            }
        }
        Some((None, pos + 1))
    } else if tag == 1 {
        match decode_u64_le(input, pos + 1) {
            None => {
                proof {
                    assert forall|v: Option<u64>|
                        #[trigger] starts_at(input@, pos as int, spec_opt_u64(v)) implies false by {
                        assert(input@[pos as int] == spec_opt_u64(v)[0]);
                        if v is Some {
                            lemma_starts_at_concat(
                                input@,
                                pos as int,
                                seq![1u8],
                                spec_u64_le(v->Some_0),
                            );
                        }
                    }
                }
                None
            },
            Some((x, end)) => {
                proof {
                    assert(input@.subrange(pos as int, end as int) =~= spec_opt_u64(Some(x)));
                    assert forall|v: Option<u64>|
                        #[trigger] starts_at(input@, pos as int, spec_opt_u64(v)) implies v == Some(
                        x,
                    ) by {
                        assert(input@[pos as int] == spec_opt_u64(v)[0]);
                        if v is Some {
                            lemma_starts_at_concat(
                                input@,
                                pos as int,
                                seq![1u8],
                                spec_u64_le(v->Some_0),
                            );
                        }
                    }
                }
                Some((Some(x), end))
            },
        }
    } else {
        proof {
            assert forall|v: Option<u64>| #[trigger] starts_at(input@, pos as int, spec_opt_u64(v))
                implies false by {
                assert(input@[pos as int] == spec_opt_u64(v)[0]);
            }
        }
        None
    }
}

/// Reads a raw identity key (`PUBKEY_LEN` bytes) at `pos`.
pub fn decode_pubkey_at(input: &Vec<u8>, pos: usize) -> (r: Option<(Pubkey, usize)>)
    requires
        pos <= input@.len(),
    ensures
        match r {
            Some(p) => p.1 == pos + PUBKEY_LEN && p.1 <= input@.len() && p.0.wf()
                && input@.subrange(pos as int, p.1 as int) == p.0@,
            None => input@.len() < pos + PUBKEY_LEN,
        },
        forall|v: Seq<u8>|
            v.len() == PUBKEY_LEN && #[trigger] starts_at(input@, pos as int, v) ==> r is Some
                && r->Some_0.0@ == v && r->Some_0.1 == pos + PUBKEY_LEN,
{
    if input.len() - pos < PUBKEY_LEN {
        return None;
    }
    let b = copy_range(input, pos, PUBKEY_LEN);
    Some((Pubkey { bytes: b }, pos + PUBKEY_LEN))
}

/// Every record in the sequence is well formed.
pub open spec fn files_wf(fs: Seq<FileRecordV>) -> bool {
    forall|i: int| 0 <= i < fs.len() ==> (#[trigger] fs[i]).wf()
}

/// Every key in the sequence has key length.
pub open spec fn members_wf(ms: Seq<Seq<u8>>) -> bool {
    forall|i: int| 0 <= i < ms.len() ==> (#[trigger] ms[i]).len() == PUBKEY_LEN
}

/// The identity half of a carried file record splits into its fields.
pub proof fn lemma_file_record_meta_split(s: Seq<u8>, pos: int, f: FileRecordV)
    requires
        starts_at(s, pos, spec_file_record_meta(f)),
    ensures
        ({
            let sa = spec_string(f.file_hash);
            let sb = spec_string(f.sha256_hash);
            let sc = spec_string(f.file_name);
            let sd = spec_u64_le(f.file_size);
            &&& starts_at(s, pos, sa)
            &&& starts_at(s, pos + sa.len(), sb)
            &&& starts_at(s, pos + sa.len() + sb.len(), sc)
            &&& starts_at(s, pos + sa.len() + sb.len() + sc.len(), sd)
        }),
{
    let sa = spec_string(f.file_hash);
    let sb = spec_string(f.sha256_hash);
    let sc = spec_string(f.file_name);
    let sd = spec_u64_le(f.file_size);
    lemma_starts_at_concat(s, pos, sa + sb + sc, sd);
    lemma_starts_at_concat(s, pos, sa + sb, sc);
    lemma_starts_at_concat(s, pos, sa, sb);
}

/// The payload half of a carried file record splits into its fields.
pub proof fn lemma_file_record_payload_split(s: Seq<u8>, pos: int, f: FileRecordV)
    requires
        starts_at(s, pos, spec_file_record_payload(f)),
    ensures
        ({
            let se = spec_string(f.ipfs_url);
            let sf = spec_opt_u64(f.network_id);
            let sg = spec_len_prefixed(f.encrypted_data);
            let sh = spec_i64_le(f.uploaded_at);
            &&& starts_at(s, pos, se)
            &&& starts_at(s, pos + se.len(), sf)
            &&& starts_at(s, pos + se.len() + sf.len(), sg)
            &&& starts_at(s, pos + se.len() + sf.len() + sg.len(), sh)
        }),
{
    let se = spec_string(f.ipfs_url);
    let sf = spec_opt_u64(f.network_id);
    let sg = spec_len_prefixed(f.encrypted_data);
    let sh = spec_i64_le(f.uploaded_at);
    lemma_starts_at_concat(s, pos, se + sf + sg, sh);
    lemma_starts_at_concat(s, pos, se + sf, sg);
    lemma_starts_at_concat(s, pos, se, sf);
}

/// A subrange over consecutive cut points is the concatenation of its parts.
proof fn lemma_subrange_chain4(s: Seq<u8>, p0: int, p1: int, p2: int, p3: int, p4: int)
    requires
        0 <= p0 <= p1 <= p2 <= p3 <= p4 <= s.len(),
    ensures
        s.subrange(p0, p4) == s.subrange(p0, p1) + s.subrange(p1, p2) + s.subrange(p2, p3)
            + s.subrange(p3, p4),
{
    assert(s.subrange(p0, p2) =~= s.subrange(p0, p1) + s.subrange(p1, p2));
    assert(s.subrange(p0, p3) =~= s.subrange(p0, p2) + s.subrange(p2, p3));
    assert(s.subrange(p0, p4) =~= s.subrange(p0, p3) + s.subrange(p3, p4));
}

/// Reads the identity half of a file record at `pos`.
#[verifier::rlimit(100)]
fn decode_fr_meta(input: &Vec<u8>, pos: usize) -> (r: Option<(String, String, String, u64, usize)>)
    requires
        pos <= input@.len(),
    ensures
        match r {
            Some(p) => pos <= p.4 <= input@.len() && crate::records::str_fits(p.0@)
                && crate::records::str_fits(p.1@) && crate::records::str_fits(p.2@)
                && input@.subrange(pos as int, p.4 as int) == spec_string(p.0@) + spec_string(p.1@)
                + spec_string(p.2@) + spec_u64_le(p.3),
            None => true,
        },
        forall|fv: FileRecordV|
            fv.wf() && #[trigger] starts_at(input@, pos as int, spec_file_record_meta(fv)) ==> r
                is Some && r->Some_0.0@ == fv.file_hash && r->Some_0.1@ == fv.sha256_hash
                && r->Some_0.2@ == fv.file_name && r->Some_0.3 == fv.file_size && r->Some_0.4 == pos
                + spec_file_record_meta(fv).len(),
{
    let (file_hash, p1) = match decode_string_at(input, pos) {
        None => {
            proof {
                assert forall|fv: FileRecordV|
                    fv.wf() && #[trigger] starts_at(input@, pos as int, spec_file_record_meta(fv))
                    implies false by {
                    lemma_file_record_meta_split(input@, pos as int, fv);
                }
            }
            return None;
        },
        Some(t) => t,
    };
    let (sha256_hash, p2) = match decode_string_at(input, p1) {
        None => {
            proof {
                assert forall|fv: FileRecordV|
                    fv.wf() && #[trigger] starts_at(input@, pos as int, spec_file_record_meta(fv))
                    implies false by {
                    lemma_file_record_meta_split(input@, pos as int, fv);
                }
            }
            return None;
        },
        Some(t) => t,
    };
    let (file_name, p3) = match decode_string_at(input, p2) {
        None => {
            proof {
                assert forall|fv: FileRecordV|
                    fv.wf() && #[trigger] starts_at(input@, pos as int, spec_file_record_meta(fv))
                    implies false by {
                    lemma_file_record_meta_split(input@, pos as int, fv);
                }
            }
            return None;
        },
        Some(t) => t,
    };
    let (file_size, p4) = match decode_u64_le(input, p3) {
        None => {
            proof {
                assert forall|fv: FileRecordV|
                    fv.wf() && #[trigger] starts_at(input@, pos as int, spec_file_record_meta(fv))
                    implies false by {
                    lemma_file_record_meta_split(input@, pos as int, fv);
                }
            }
            return None;
        },
        Some(t) => t,
    };
    proof {
        lemma_subrange_chain4(input@, pos as int, p1 as int, p2 as int, p3 as int, p4 as int);
        assert forall|fv: FileRecordV|
            fv.wf() && #[trigger] starts_at(input@, pos as int, spec_file_record_meta(fv)) implies (
        file_hash@ == fv.file_hash && sha256_hash@ == fv.sha256_hash && file_name@ == fv.file_name
            && file_size == fv.file_size && p4 == pos + spec_file_record_meta(fv).len()) by {
            lemma_file_record_meta_split(input@, pos as int, fv);
        }
    }
    Some((file_hash, sha256_hash, file_name, file_size, p4))
}

/// Reads the payload half of a file record at `pos`.
#[verifier::rlimit(100)]
fn decode_fr_payload(input: &Vec<u8>, pos: usize) -> (r: Option<
    (String, Option<u64>, Vec<u8>, i64, usize),
>)
    requires
        pos <= input@.len(),
    ensures
        match r {
            Some(p) => pos <= p.4 <= input@.len() && crate::records::str_fits(p.0@)
                && p.2@.len() <= u32::MAX && input@.subrange(pos as int, p.4 as int) == spec_string(
                p.0@,
            ) + spec_opt_u64(p.1) + spec_len_prefixed(p.2@) + spec_i64_le(p.3),
            None => true,
        },
        forall|fv: FileRecordV|
            fv.wf() && #[trigger] starts_at(input@, pos as int, spec_file_record_payload(fv)) ==> r
                is Some && r->Some_0.0@ == fv.ipfs_url && r->Some_0.1 == fv.network_id
                && r->Some_0.2@ == fv.encrypted_data && r->Some_0.3 == fv.uploaded_at
                && r->Some_0.4 == pos + spec_file_record_payload(fv).len(),
{
    let (ipfs_url, p1) = match decode_string_at(input, pos) {
        None => {
            proof {
                assert forall|fv: FileRecordV|
                    fv.wf() && #[trigger] starts_at(
                        input@,
                        pos as int,
                        spec_file_record_payload(fv),
                    ) implies false by {
                    lemma_file_record_payload_split(input@, pos as int, fv);
                }
            }
            return None;
        },
        Some(t) => t,
    };
    let (network_id, p2) = match decode_opt_u64_at(input, p1) {
        None => {
            proof {
                assert forall|fv: FileRecordV|
                    fv.wf() && #[trigger] starts_at(
                        input@,
                        pos as int,
                        spec_file_record_payload(fv),
                    ) implies false by {
                    lemma_file_record_payload_split(input@, pos as int, fv);
                }
            }
            return None;
        },
        Some(t) => t,
    };
    let (encrypted_data, p3) = match decode_bytes_at(input, p2) {
        None => {
            proof {
                assert forall|fv: FileRecordV|
                    fv.wf() && #[trigger] starts_at(
                        input@,
                        pos as int,
                        spec_file_record_payload(fv),
                    ) implies false by {
                    lemma_file_record_payload_split(input@, pos as int, fv);
                }
            }
            return None;
        },
        Some(t) => t,
    };
    let (uploaded_at, p4) = match decode_i64_le(input, p3) {
        None => {
            proof {
                assert forall|fv: FileRecordV|
                    fv.wf() && #[trigger] starts_at(
                        input@,
                        pos as int,
                        spec_file_record_payload(fv),
                    ) implies false by {
                    lemma_file_record_payload_split(input@, pos as int, fv);
                }
            }
            return None;
        },
        Some(t) => t,
    };
    proof {
        lemma_subrange_chain4(input@, pos as int, p1 as int, p2 as int, p3 as int, p4 as int);
        assert forall|fv: FileRecordV|
            fv.wf() && #[trigger] starts_at(input@, pos as int, spec_file_record_payload(fv))
            implies (ipfs_url@ == fv.ipfs_url && network_id == fv.network_id && encrypted_data@
            == fv.encrypted_data && uploaded_at == fv.uploaded_at && p4 == pos
            + spec_file_record_payload(fv).len()) by {
            lemma_file_record_payload_split(input@, pos as int, fv);
        }
    }
    Some((ipfs_url, network_id, encrypted_data, uploaded_at, p4))
}

/// Reads one file record at `pos`. Whenever the input carries the encoding of
/// a well-formed record there, the result is exactly that record.
#[verifier::rlimit(100)]
pub fn decode_file_record_at(input: &Vec<u8>, pos: usize) -> (r: Option<(FileRecord, usize)>)
    requires
        pos <= input@.len(),
    ensures
        match r {
            Some(p) => pos <= p.1 <= input@.len() && p.0@.wf() && p.1 == pos + spec_file_record(
                p.0@,
            ).len() && input@.subrange(pos as int, p.1 as int) == spec_file_record(p.0@),
            None => true,
        },
        forall|fv: FileRecordV|
            fv.wf() && #[trigger] starts_at(input@, pos as int, spec_file_record(fv)) ==> r is Some
                && r->Some_0.0@ == fv && r->Some_0.1 == pos + spec_file_record(fv).len(),
{
    let (file_hash, sha256_hash, file_name, file_size, pm) = match decode_fr_meta(input, pos) {
        None => {
            proof {
                assert forall|fv: FileRecordV|
                    fv.wf() && #[trigger] starts_at(input@, pos as int, spec_file_record(fv))
                    implies false by {
                    lemma_starts_at_concat(
                        input@,
                        pos as int,
                        spec_file_record_meta(fv),
                        spec_file_record_payload(fv),
                    );
                }
            }
            return None;
        },
        Some(t) => t,
    };
    let (ipfs_url, network_id, encrypted_data, uploaded_at, pe) = match decode_fr_payload(
        input,
        pm,
    ) {
        None => {
            proof {
                assert forall|fv: FileRecordV|
                    fv.wf() && #[trigger] starts_at(input@, pos as int, spec_file_record(fv))
                    implies false by {
                    lemma_starts_at_concat(
                        input@,
                        pos as int,
                        spec_file_record_meta(fv),
                        spec_file_record_payload(fv),
                    );
                }
            }
            return None;
        },
        Some(t) => t,
    };
    let f = FileRecord {
        file_hash,
        sha256_hash,
        file_name,
        file_size,
        ipfs_url,
        network_id,
        encrypted_data,
        uploaded_at,
    };
    proof {
        assert(input@.subrange(pos as int, pe as int) =~= input@.subrange(pos as int, pm as int)
            + input@.subrange(pm as int, pe as int));
        assert(input@.subrange(pos as int, pe as int) == spec_file_record(f@));
        assert forall|fv: FileRecordV|
            fv.wf() && #[trigger] starts_at(input@, pos as int, spec_file_record(fv)) implies (f@
            =~= fv) by {
            lemma_starts_at_concat(
                input@,
                pos as int,
                spec_file_record_meta(fv),
                spec_file_record_payload(fv),
            );
        }
    }
    Some((f, pe))
}

/// `spec_records_body` distributes over concatenation.
pub proof fn lemma_records_body_concat(a: Seq<FileRecordV>, b: Seq<FileRecordV>)
    ensures
        spec_records_body(a + b) == spec_records_body(a) + spec_records_body(b),
    decreases a.len(),
{
    if a.len() == 0 {
        assert(a + b =~= b);
        assert(spec_records_body(a) + spec_records_body(b) =~= spec_records_body(b));
    } else {
        assert((a + b)[0] == a[0]);
        assert((a + b).drop_first() =~= a.drop_first() + b);
        lemma_records_body_concat(a.drop_first(), b);
        assert(spec_file_record(a[0]) + (spec_records_body(a.drop_first()) + spec_records_body(b))
            =~= (spec_file_record(a[0]) + spec_records_body(a.drop_first())) + spec_records_body(
            b,
        ));
    }
}

/// `spec_members_body` distributes over concatenation.
pub proof fn lemma_members_body_concat(a: Seq<Seq<u8>>, b: Seq<Seq<u8>>)
    ensures
        spec_members_body(a + b) == spec_members_body(a) + spec_members_body(b),
    decreases a.len(),
{
    if a.len() == 0 {
        assert(a + b =~= b);
        assert(spec_members_body(a) + spec_members_body(b) =~= spec_members_body(b));
    } else {
        assert((a + b)[0] == a[0]);
        assert((a + b).drop_first() =~= a.drop_first() + b);
        lemma_members_body_concat(a.drop_first(), b);
        assert(a[0] + (spec_members_body(a.drop_first()) + spec_members_body(b)) =~= (a[0]
            + spec_members_body(a.drop_first())) + spec_members_body(b));
    }
}

/// Reads a counted list of file records at `pos`. Whenever the input carries
/// the encoding of a well-formed list there, the result is exactly that list.
#[verifier::rlimit(100)]
pub fn decode_file_records_at(input: &Vec<u8>, pos: usize) -> (r: Option<(Vec<FileRecord>, usize)>)
    requires
        pos <= input@.len(),
    ensures
        match r {
            Some(p) => pos <= p.1 <= input@.len() && p.0@.len() <= u32::MAX && files_wf(
                p.0@.map_values(|f: FileRecord| f@),
            ) && p.1 == pos + spec_file_records(p.0@.map_values(|f: FileRecord| f@)).len()
                && input@.subrange(pos as int, p.1 as int) == spec_file_records(
                p.0@.map_values(|f: FileRecord| f@),
            ),
            None => true,
        },
        forall|fs: Seq<FileRecordV>|
            files_wf(fs) && fs.len() <= u32::MAX && #[trigger] starts_at(
                input@,
                pos as int,
                spec_file_records(fs),
            ) ==> r is Some && r->Some_0.0@.map_values(|f: FileRecord| f@) == fs && r->Some_0.1
                == pos + spec_file_records(fs).len(),
{
    let (n, p1) = match decode_u32_le(input, pos) {
        None => {
            proof {
                assert forall|fs: Seq<FileRecordV>|
                    files_wf(fs) && fs.len() <= u32::MAX && #[trigger] starts_at(
                        input@,
                        pos as int,
                        spec_file_records(fs),
                    ) implies false by {
                    lemma_starts_at_concat(
                        input@,
                        pos as int,
                        spec_u32_le(fs.len() as u32),
                        spec_records_body(fs),
                    );
                }
            }
            return None;
        },
        Some(t) => t,
    };
    let count = n as usize;
    let mut out: Vec<FileRecord> = Vec::new();
    let mut cur = p1;
    let mut k: usize = 0;
    while k < count
        invariant
            pos <= input@.len(),
            p1 == pos + 4,
            pos + 4 <= input@.len(),
            p1 <= cur,
            cur <= input@.len(),
            k <= count,
            count == n as usize,
            forall|m: u32| #[trigger] starts_at(input@, pos as int, spec_u32_le(m)) ==> m == n,
            out@.len() == k,
            files_wf(out@.map_values(|f: FileRecord| f@)),
            input@.subrange(p1 as int, cur as int) == spec_records_body(
                out@.map_values(|f: FileRecord| f@),
            ),
            forall|fs: Seq<FileRecordV>|
                files_wf(fs) && fs.len() == n && #[trigger] starts_at(
                    input@,
                    pos as int,
                    spec_file_records(fs),
                ) ==> out@.map_values(|f: FileRecord| f@) == fs.take(k as int) && cur as int == p1
                    + spec_records_body(fs.take(k as int)).len(),
        decreases count - k,
    {
        let ghost outm = out@.map_values(|f: FileRecord| f@);
        match decode_file_record_at(input, cur) {
            None => {
                proof {
                    assert forall|fs: Seq<FileRecordV>|
                        files_wf(fs) && fs.len() <= u32::MAX && #[trigger] starts_at(
                            input@,
                            pos as int,
                            spec_file_records(fs),
                        ) implies false by {
                        lemma_starts_at_concat(
                            input@,
                            pos as int,
                            spec_u32_le(fs.len() as u32),
                            spec_records_body(fs),
                        );
                        assert(fs.len() == n);
                        assert(fs =~= fs.take(k as int) + fs.skip(k as int));
                        lemma_records_body_concat(fs.take(k as int), fs.skip(k as int));
                        lemma_starts_at_concat(
                            input@,
                            p1 as int,
                            spec_records_body(fs.take(k as int)),
                            spec_records_body(fs.skip(k as int)),
                        );
                        let tail = fs.skip(k as int);
                        assert(tail.len() > 0);
                        assert(spec_records_body(tail) == spec_file_record(tail[0])
                            + spec_records_body(tail.drop_first()));
                        lemma_starts_at_concat(
                            input@,
                            cur as int,
                            spec_file_record(tail[0]),
                            spec_records_body(tail.drop_first()),
                        );
                        assert(tail[0] == fs[k as int]);
                        assert(tail[0].wf());
                    }
                }
                return None;
            },
            Some((f, nxt)) => {
                proof {
                    assert(input@.subrange(p1 as int, nxt as int) =~= input@.subrange(
                        p1 as int,
                        cur as int,
                    ) + input@.subrange(cur as int, nxt as int));
                    lemma_records_body_push(outm, f@);
                    assert(out@.push(f).map_values(|f: FileRecord| f@) =~= outm.push(f@));
                    assert forall|fs: Seq<FileRecordV>|
                        files_wf(fs) && fs.len() == n && #[trigger] starts_at(
                            input@,
                            pos as int,
                            spec_file_records(fs),
                        ) implies outm.push(f@) == fs.take(k + 1) && nxt as int == p1
                        + spec_records_body(fs.take(k + 1)).len() by {
                        lemma_starts_at_concat(
                            input@,
                            pos as int,
                            spec_u32_le(fs.len() as u32),
                            spec_records_body(fs),
                        );
                        assert(fs =~= fs.take(k as int) + fs.skip(k as int));
                        lemma_records_body_concat(fs.take(k as int), fs.skip(k as int));
                        lemma_starts_at_concat(
                            input@,
                            p1 as int,
                            spec_records_body(fs.take(k as int)),
                            spec_records_body(fs.skip(k as int)),
                        );
                        let tail = fs.skip(k as int);
                        assert(tail.len() > 0);
                        assert(spec_records_body(tail) == spec_file_record(tail[0])
                            + spec_records_body(tail.drop_first()));
                        lemma_starts_at_concat(
                            input@,
                            cur as int,
                            spec_file_record(tail[0]),
                            spec_records_body(tail.drop_first()),
                        );
                        assert(tail[0] == fs[k as int]);
                        assert(tail[0].wf());
                        assert(f@ == fs[k as int]);
                        assert(fs.take(k + 1) =~= fs.take(k as int).push(fs[k as int]));
                        lemma_records_body_push(fs.take(k as int), fs[k as int]);
                    }
                }
                out.push(f);
                cur = nxt;
                k = k + 1;
            },
        }
    }
    proof {
        let outm = out@.map_values(|f: FileRecord| f@);
        assert(outm.len() == count);
        assert((outm.len() as u32) == n);
        assert(input@.subrange(pos as int, cur as int) =~= input@.subrange(pos as int, p1 as int)
            + input@.subrange(p1 as int, cur as int));
        assert(input@.subrange(pos as int, p1 as int) == spec_u32_le(n));
        assert(input@.subrange(pos as int, cur as int) == spec_file_records(outm));
        assert forall|fs: Seq<FileRecordV>|
            files_wf(fs) && fs.len() <= u32::MAX && #[trigger] starts_at(
                input@,
                pos as int,
                spec_file_records(fs),
            ) implies outm == fs && cur as int == pos + spec_file_records(fs).len() by {
            lemma_starts_at_concat(
                input@,
                pos as int,
                spec_u32_le(fs.len() as u32),
                spec_records_body(fs),
            );
            assert(fs.len() == n);
            assert(fs.take(k as int) =~= fs);
        }
    }
    Some((out, cur))
}

/// Reads a counted member list at `pos`. Whenever the input carries the
/// encoding of a list of keys there, the result is exactly that list.
#[verifier::rlimit(100)]
pub fn decode_members_at(input: &Vec<u8>, pos: usize) -> (r: Option<(Vec<Pubkey>, usize)>)
    requires
        pos <= input@.len(),
    ensures
        match r {
            Some(p) => pos <= p.1 <= input@.len() && p.0@.len() <= u32::MAX && members_wf(
                p.0@.map_values(|q: Pubkey| q@),
            ) && p.1 == pos + spec_members(p.0@.map_values(|q: Pubkey| q@)).len()
                && input@.subrange(pos as int, p.1 as int) == spec_members(
                p.0@.map_values(|q: Pubkey| q@),
            ),
            None => true,
        },
        forall|ms: Seq<Seq<u8>>|
            members_wf(ms) && ms.len() <= u32::MAX && #[trigger] starts_at(
                input@,
                pos as int,
                spec_members(ms),
            ) ==> r is Some && r->Some_0.0@.map_values(|q: Pubkey| q@) == ms && r->Some_0.1 == pos
                + spec_members(ms).len(),
{
    let (n, p1) = match decode_u32_le(input, pos) {
        None => {
            proof {
                assert forall|ms: Seq<Seq<u8>>|
                    members_wf(ms) && ms.len() <= u32::MAX && #[trigger] starts_at(
                        input@,
                        pos as int,
                        spec_members(ms),
                    ) implies false by {
                    lemma_starts_at_concat(
                        input@,
                        pos as int,
                        spec_u32_le(ms.len() as u32),
                        spec_members_body(ms),
                    );
                }
            }
            return None;
        },
        Some(t) => t,
    };
    let count = n as usize;
    let mut out: Vec<Pubkey> = Vec::new();
    let mut cur = p1;
    let mut k: usize = 0;
    while k < count
        invariant
            pos <= input@.len(),
            p1 == pos + 4,
            pos + 4 <= input@.len(),
            p1 <= cur,
            cur <= input@.len(),
            k <= count,
            count == n as usize,
            forall|m: u32| #[trigger] starts_at(input@, pos as int, spec_u32_le(m)) ==> m == n,
            out@.len() == k,
            members_wf(out@.map_values(|q: Pubkey| q@)),
            input@.subrange(p1 as int, cur as int) == spec_members_body(
                out@.map_values(|q: Pubkey| q@),
            ),
            forall|ms: Seq<Seq<u8>>|
                members_wf(ms) && ms.len() == n && #[trigger] starts_at(
                    input@,
                    pos as int,
                    spec_members(ms),
                ) ==> out@.map_values(|q: Pubkey| q@) == ms.take(k as int) && cur as int == p1
                    + spec_members_body(ms.take(k as int)).len(),
        decreases count - k,
    {
        let ghost outm = out@.map_values(|q: Pubkey| q@);
        match decode_pubkey_at(input, cur) {
            None => {
                proof {
                    assert forall|ms: Seq<Seq<u8>>|
                        members_wf(ms) && ms.len() <= u32::MAX && #[trigger] starts_at(
                            input@,
                            pos as int,
                            spec_members(ms),
                        ) implies false by {
                        lemma_starts_at_concat(
                            input@,
                            pos as int,
                            spec_u32_le(ms.len() as u32),
                            spec_members_body(ms),
                        );
                        assert(ms.len() == n);
                        assert(ms =~= ms.take(k as int) + ms.skip(k as int));
                        lemma_members_body_concat(ms.take(k as int), ms.skip(k as int));
                        lemma_starts_at_concat(
                            input@,
                            p1 as int,
                            spec_members_body(ms.take(k as int)),
                            spec_members_body(ms.skip(k as int)),
                        );
                        let tail = ms.skip(k as int);
                        assert(tail.len() > 0);
                        assert(spec_members_body(tail) == tail[0] + spec_members_body(
                            tail.drop_first(),
                        ));
                        lemma_starts_at_concat(
                            input@,
                            cur as int,
                            tail[0],
                            spec_members_body(tail.drop_first()),
                        );
                        assert(tail[0] == ms[k as int]);
                        assert(tail[0].len() == PUBKEY_LEN);
                    }
                }
                return None;
            },
            Some((q, nxt)) => {
                proof {
                    assert(input@.subrange(p1 as int, nxt as int) =~= input@.subrange(
                        p1 as int,
                        cur as int,
                    ) + input@.subrange(cur as int, nxt as int));
                    lemma_members_body_push(outm, q@);
                    assert(out@.push(q).map_values(|q: Pubkey| q@) =~= outm.push(q@));
                    assert forall|ms: Seq<Seq<u8>>|
                        members_wf(ms) && ms.len() == n && #[trigger] starts_at(
                            input@,
                            pos as int,
                            spec_members(ms),
                        ) implies outm.push(q@) == ms.take(k + 1) && nxt as int == p1
                        + spec_members_body(ms.take(k + 1)).len() by {
                        lemma_starts_at_concat(
                            input@,
                            pos as int,
                            spec_u32_le(ms.len() as u32),
                            spec_members_body(ms),
                        );
                        assert(ms =~= ms.take(k as int) + ms.skip(k as int));
                        lemma_members_body_concat(ms.take(k as int), ms.skip(k as int));
                        lemma_starts_at_concat(
                            input@,
                            p1 as int,
                            spec_members_body(ms.take(k as int)),
                            spec_members_body(ms.skip(k as int)),
                        );
                        let tail = ms.skip(k as int);
                        assert(tail.len() > 0);
                        assert(spec_members_body(tail) == tail[0] + spec_members_body(
                            tail.drop_first(),
                        ));
                        lemma_starts_at_concat(
                            input@,
                            cur as int,
                            tail[0],
                            spec_members_body(tail.drop_first()),
                        );
                        assert(tail[0] == ms[k as int]);
                        assert(tail[0].len() == PUBKEY_LEN);
                        assert(q@ == ms[k as int]);
                        assert(ms.take(k + 1) =~= ms.take(k as int).push(ms[k as int]));
                        lemma_members_body_push(ms.take(k as int), ms[k as int]);
                    }
                }
                out.push(q);
                cur = nxt;
                k = k + 1;
            },
        }
    }
    proof {
        let outm = out@.map_values(|q: Pubkey| q@);
        assert(outm.len() == count);
        assert((outm.len() as u32) == n);
        assert(input@.subrange(pos as int, cur as int) =~= input@.subrange(pos as int, p1 as int)
            + input@.subrange(p1 as int, cur as int));
        assert(input@.subrange(pos as int, p1 as int) == spec_u32_le(n));
        assert(input@.subrange(pos as int, cur as int) == spec_members(outm));
        assert forall|ms: Seq<Seq<u8>>|
            members_wf(ms) && ms.len() <= u32::MAX && #[trigger] starts_at(
                input@,
                pos as int,
                spec_members(ms),
            ) implies outm == ms && cur as int == pos + spec_members(ms).len() by {
            lemma_starts_at_concat(
                input@,
                pos as int,
                spec_u32_le(ms.len() as u32),
                spec_members_body(ms),
            );
            assert(ms.len() == n);
            assert(ms.take(k as int) =~= ms);
        }
    }
    Some((out, cur))
}


/// The identity half of a carried user profile splits into its fields.
pub proof fn lemma_user_profile_ident_split(s: Seq<u8>, pos: int, u: UserProfileV)
    requires
        starts_at(s, pos, spec_user_profile_ident(u)),
    ensures
        ({
            let sa = u.authority;
            let sb = spec_string(u.username);
            let sc = spec_len_prefixed(u.encrypted_data);
            &&& starts_at(s, pos, sa)
            &&& starts_at(s, pos + sa.len(), sb)
            &&& starts_at(s, pos + sa.len() + sb.len(), sc)
        }),
{
    let sa = u.authority;
    let sb = spec_string(u.username);
    let sc = spec_len_prefixed(u.encrypted_data);
    lemma_starts_at_concat(s, pos, sa + sb, sc);
    lemma_starts_at_concat(s, pos, sa, sb);
}

/// The state half of a carried user profile splits into its fields.
pub proof fn lemma_user_profile_state_split(s: Seq<u8>, pos: int, u: UserProfileV)
    requires
        starts_at(s, pos, spec_user_profile_state(u)),
    ensures
        ({
            let sa = spec_file_records(u.files);
            let sb = spec_u64_le(u.elo_score);
            let sc = spec_i64_le(u.created_at);
            &&& starts_at(s, pos, sa)
            &&& starts_at(s, pos + sa.len(), sb)
            &&& starts_at(s, pos + sa.len() + sb.len(), sc)
        }),
{
    let sa = spec_file_records(u.files);
    let sb = spec_u64_le(u.elo_score);
    let sc = spec_i64_le(u.created_at);
    lemma_starts_at_concat(s, pos, sa + sb, sc);
    lemma_starts_at_concat(s, pos, sa, sb);
}

/// Reads the identity half of a user profile at `pos`.
#[verifier::rlimit(100)]
#[verifier::spinoff_prover]
fn decode_profile_ident(input: &Vec<u8>, pos: usize) -> (r: Option<(Pubkey, String, Vec<u8>, usize)>)
    requires
        pos <= input@.len(),
    ensures
        match r {
            Some(p) => pos <= p.3 <= input@.len() && p.0.wf() && crate::records::str_fits(p.1@)
                && p.2@.len() <= u32::MAX && input@.subrange(pos as int, p.3 as int) == p.0@
                + spec_string(p.1@) + spec_len_prefixed(p.2@),
            None => true,
        },
        forall|uv: UserProfileV|
            uv.wf() && #[trigger] starts_at(input@, pos as int, spec_user_profile_ident(uv)) ==> r
                is Some && r->Some_0.0@ == uv.authority && r->Some_0.1@ == uv.username
                && r->Some_0.2@ == uv.encrypted_data && r->Some_0.3 == pos
                + spec_user_profile_ident(uv).len(),
{
    let (authority, p1) = match decode_pubkey_at(input, pos) {
        None => {
            proof {
                assert forall|uv: UserProfileV|
                    uv.wf() && #[trigger] starts_at(
                        input@,
                        pos as int,
                        spec_user_profile_ident(uv),
                    ) implies false by {
                    lemma_user_profile_ident_split(input@, pos as int, uv);
                }
            }
            return None;
        },
        Some(t) => t,
    };
    let (username, p2) = match decode_string_at(input, p1) {
        None => {
            proof {
                assert forall|uv: UserProfileV|
                    uv.wf() && #[trigger] starts_at(
                        input@,
                        pos as int,
                        spec_user_profile_ident(uv),
                    ) implies false by {
                    lemma_user_profile_ident_split(input@, pos as int, uv);
                }
            }
            return None;
        },
        Some(t) => t,
    };
    let (encrypted_data, p3) = match decode_bytes_at(input, p2) {
        None => {
            proof {
                assert forall|uv: UserProfileV|
                    uv.wf() && #[trigger] starts_at(
                        input@,
                        pos as int,
                        spec_user_profile_ident(uv),
                    ) implies false by {
                    lemma_user_profile_ident_split(input@, pos as int, uv);
                }
            }
            return None;
        },
        Some(t) => t,
    };
    proof {
        assert(input@.subrange(pos as int, p2 as int) =~= input@.subrange(pos as int, p1 as int)
            + input@.subrange(p1 as int, p2 as int));
        assert(input@.subrange(pos as int, p3 as int) =~= input@.subrange(pos as int, p2 as int)
            + input@.subrange(p2 as int, p3 as int));
        assert forall|uv: UserProfileV|
            uv.wf() && #[trigger] starts_at(input@, pos as int, spec_user_profile_ident(uv))
            implies (authority@ == uv.authority && username@ == uv.username && encrypted_data@
            == uv.encrypted_data && p3 == pos + spec_user_profile_ident(uv).len()) by {
            lemma_user_profile_ident_split(input@, pos as int, uv);
        }
    }
    Some((authority, username, encrypted_data, p3))
}

/// Reads the state half of a user profile at `pos`.
#[verifier::rlimit(100)]
#[verifier::spinoff_prover]
fn decode_profile_state(input: &Vec<u8>, pos: usize) -> (r: Option<
    (Vec<FileRecord>, u64, i64, usize),
>)
    requires
        pos <= input@.len(),
    ensures
        match r {
            Some(p) => pos <= p.3 <= input@.len() && p.0@.len() <= u32::MAX && files_wf(
                p.0@.map_values(|f: FileRecord| f@),
            ) && input@.subrange(pos as int, p.3 as int) == spec_file_records(
                p.0@.map_values(|f: FileRecord| f@),
            ) + spec_u64_le(p.1) + spec_i64_le(p.2),
            None => true,
        },
        forall|uv: UserProfileV|
            uv.wf() && #[trigger] starts_at(input@, pos as int, spec_user_profile_state(uv)) ==> r
                is Some && r->Some_0.0@.map_values(|f: FileRecord| f@) == uv.files && r->Some_0.1
                == uv.elo_score && r->Some_0.2 == uv.created_at && r->Some_0.3 == pos
                + spec_user_profile_state(uv).len(),
{
    let (files, p1) = match decode_file_records_at(input, pos) {
        None => {
            proof {
                assert forall|uv: UserProfileV|
                    uv.wf() && #[trigger] starts_at(
                        input@,
                        pos as int,
                        spec_user_profile_state(uv),
                    ) implies false by {
                    lemma_user_profile_state_split(input@, pos as int, uv);
                }
            }
            return None;
        },
        Some(t) => t,
    };
    let (elo_score, p2) = match decode_u64_le(input, p1) {
        None => {
            proof {
                assert forall|uv: UserProfileV|
                    uv.wf() && #[trigger] starts_at(
                        input@,
                        pos as int,
                        spec_user_profile_state(uv),
                    ) implies false by {
                    lemma_user_profile_state_split(input@, pos as int, uv);
                }
            }
            return None;
        },
        Some(t) => t,
    };
    let (created_at, p3) = match decode_i64_le(input, p2) {
        None => {
            proof {
                assert forall|uv: UserProfileV|
                    uv.wf() && #[trigger] starts_at(
                        input@,
                        pos as int,
                        spec_user_profile_state(uv),
                    ) implies false by {
                    lemma_user_profile_state_split(input@, pos as int, uv);
                }
            }
            return None;
        },
        Some(t) => t,
    };
    proof {
        assert(input@.subrange(pos as int, p2 as int) =~= input@.subrange(pos as int, p1 as int)
            + input@.subrange(p1 as int, p2 as int));
        assert(input@.subrange(pos as int, p3 as int) =~= input@.subrange(pos as int, p2 as int)
            + input@.subrange(p2 as int, p3 as int));
        assert forall|uv: UserProfileV|
            uv.wf() && #[trigger] starts_at(input@, pos as int, spec_user_profile_state(uv))
            implies (files@.map_values(|f: FileRecord| f@) == uv.files && elo_score == uv.elo_score
            && created_at == uv.created_at && p3 == pos + spec_user_profile_state(uv).len()) by {
            lemma_user_profile_state_split(input@, pos as int, uv);
        }
    }
    Some((files, elo_score, created_at, p3))
}

/// Decodes a whole user profile, rejecting trailing bytes. Decoding succeeds
/// exactly on the encoding of a well-formed profile — then the result is that
/// profile, byte-exactly — and reports `CorruptData` otherwise.
#[verifier::rlimit(100)]
#[verifier::spinoff_prover]
pub fn decode_user_profile(input: &Vec<u8>) -> (r: Result<UserProfile, ErrorCode>)
    ensures
        match r {
            Ok(u) => u@.wf() && input@ == spec_user_profile(u@),
            Err(e) => e == ErrorCode::CorruptData,
        },
        forall|uv: UserProfileV|
            uv.wf() && input@ == #[trigger] spec_user_profile(uv) ==> r is Ok && r->Ok_0@ == uv,
{
    proof {
        assert forall|uv: UserProfileV|
            uv.wf() && input@ == #[trigger] spec_user_profile(uv) implies starts_at(
            input@,
            0,
            spec_user_profile(uv),
        ) && starts_at(input@, 0, spec_user_profile_ident(uv)) && starts_at(
            input@,
            spec_user_profile_ident(uv).len() as int,
            spec_user_profile_state(uv),
        ) by {
            assert(input@.subrange(0, input@.len() as int) =~= input@);
            lemma_starts_at_concat(
                input@,
                0,
                spec_user_profile_ident(uv),
                spec_user_profile_state(uv),
            );
        }
    }
    let (authority, username, encrypted_data, p1) = match decode_profile_ident(input, 0) {
        None => {
            return Err(ErrorCode::CorruptData);
        },
        Some(t) => t,
    };
    let (files, elo_score, created_at, p2) = match decode_profile_state(input, p1) {
        None => {
            return Err(ErrorCode::CorruptData);
        },
        Some(t) => t,
    };
    if p2 != input.len() {
        return Err(ErrorCode::CorruptData);
    }
    let u = UserProfile { authority, username, encrypted_data, files, elo_score, created_at };
    proof {
        assert(input@.subrange(0, p2 as int) =~= input@.subrange(0, p1 as int) + input@.subrange(
            p1 as int,
            p2 as int,
        ));
        assert(input@.subrange(0, p2 as int) =~= input@);
        assert(input@ == spec_user_profile(u@));
        assert forall|uv: UserProfileV|
            uv.wf() && input@ == #[trigger] spec_user_profile(uv) implies (u@ =~= uv) by {}
    }
    Ok(u)
}

/// The identity half of a carried network splits into its fields.
pub proof fn lemma_network_ident_split(s: Seq<u8>, pos: int, n: NetworkV)
    requires
        starts_at(s, pos, spec_network_ident(n)),
    ensures
        ({
            let sa = n.authority;
            let sb = spec_string(n.name);
            let sc = spec_len_prefixed(n.encrypted_join_key);
            let sd = spec_len_prefixed(n.encrypted_data);
            &&& starts_at(s, pos, sa)
            &&& starts_at(s, pos + sa.len(), sb)
            &&& starts_at(s, pos + sa.len() + sb.len(), sc)
            &&& starts_at(s, pos + sa.len() + sb.len() + sc.len(), sd)
        }),
{
    let sa = n.authority;
    let sb = spec_string(n.name);
    let sc = spec_len_prefixed(n.encrypted_join_key);
    let sd = spec_len_prefixed(n.encrypted_data);
    lemma_starts_at_concat(s, pos, sa + sb + sc, sd);
    lemma_starts_at_concat(s, pos, sa + sb, sc);
    lemma_starts_at_concat(s, pos, sa, sb);
}

/// The state half of a carried network splits into its fields.
pub proof fn lemma_network_state_split(s: Seq<u8>, pos: int, n: NetworkV)
    requires
        starts_at(s, pos, spec_network_state(n)),
    ensures
        ({
            let sa = spec_members(n.members);
            let sb = spec_file_records(n.files);
            let sc = spec_i64_le(n.created_at);
            &&& starts_at(s, pos, sa)
            &&& starts_at(s, pos + sa.len(), sb)
            &&& starts_at(s, pos + sa.len() + sb.len(), sc)
        }),
{
    let sa = spec_members(n.members);
    let sb = spec_file_records(n.files);
    let sc = spec_i64_le(n.created_at);
    lemma_starts_at_concat(s, pos, sa + sb, sc);
    lemma_starts_at_concat(s, pos, sa, sb);
}

/// Reads the identity half of a network at `pos`.
#[verifier::rlimit(100)]
#[verifier::spinoff_prover]
fn decode_network_ident(input: &Vec<u8>, pos: usize) -> (r: Option<
    (Pubkey, String, Vec<u8>, Vec<u8>, usize),
>)
    requires
        pos <= input@.len(),
    ensures
        match r {
            Some(p) => pos <= p.4 <= input@.len() && p.0.wf() && crate::records::str_fits(p.1@)
                && p.2@.len() <= u32::MAX && p.3@.len() <= u32::MAX && input@.subrange(
                pos as int,
                p.4 as int,
            ) == p.0@ + spec_string(p.1@) + spec_len_prefixed(p.2@) + spec_len_prefixed(p.3@),
            None => true,
        },
        forall|nv: NetworkV|
            nv.wf() && #[trigger] starts_at(input@, pos as int, spec_network_ident(nv)) ==> r
                is Some && r->Some_0.0@ == nv.authority && r->Some_0.1@ == nv.name
                && r->Some_0.2@ == nv.encrypted_join_key && r->Some_0.3@ == nv.encrypted_data
                && r->Some_0.4 == pos + spec_network_ident(nv).len(),
{
    let (authority, p1) = match decode_pubkey_at(input, pos) {
        None => {
            proof {
                assert forall|nv: NetworkV|
                    nv.wf() && #[trigger] starts_at(input@, pos as int, spec_network_ident(nv))
                    implies false by {
                    lemma_network_ident_split(input@, pos as int, nv);
                }
            }
            return None;
        },
        Some(t) => t,
    };
    let (name, p2) = match decode_string_at(input, p1) {
        None => {
            proof {
                assert forall|nv: NetworkV|
                    nv.wf() && #[trigger] starts_at(input@, pos as int, spec_network_ident(nv))
                    implies false by {
                    lemma_network_ident_split(input@, pos as int, nv);
                }
            }
            return None;
        },
        Some(t) => t,
    };
    let (encrypted_join_key, p3) = match decode_bytes_at(input, p2) {
        None => {
            proof {
                assert forall|nv: NetworkV|
                    nv.wf() && #[trigger] starts_at(input@, pos as int, spec_network_ident(nv))
                    implies false by {
                    lemma_network_ident_split(input@, pos as int, nv);
                }
            }
            return None;
        },
        Some(t) => t,
    };
    let (encrypted_data, p4) = match decode_bytes_at(input, p3) {
        None => {
            proof {
                assert forall|nv: NetworkV|
                    nv.wf() && #[trigger] starts_at(input@, pos as int, spec_network_ident(nv))
                    implies false by {
                    lemma_network_ident_split(input@, pos as int, nv);
                }
            }
            return None;
        },
        Some(t) => t,
    };
    proof {
        lemma_subrange_chain4(input@, pos as int, p1 as int, p2 as int, p3 as int, p4 as int);
        assert forall|nv: NetworkV|
            nv.wf() && #[trigger] starts_at(input@, pos as int, spec_network_ident(nv)) implies (
        authority@ == nv.authority && name@ == nv.name && encrypted_join_key@
            == nv.encrypted_join_key && encrypted_data@ == nv.encrypted_data && p4 == pos
            + spec_network_ident(nv).len()) by {
            lemma_network_ident_split(input@, pos as int, nv);
        }
    }
    Some((authority, name, encrypted_join_key, encrypted_data, p4))
}

/// Reads the state half of a network at `pos`.
#[verifier::rlimit(100)]
#[verifier::spinoff_prover]
fn decode_network_state(input: &Vec<u8>, pos: usize) -> (r: Option<
    (Vec<Pubkey>, Vec<FileRecord>, i64, usize),
>)
    requires
        pos <= input@.len(),
    ensures
        match r {
            Some(p) => pos <= p.3 <= input@.len() && p.0@.len() <= u32::MAX && members_wf(
                p.0@.map_values(|q: Pubkey| q@),
            ) && p.1@.len() <= u32::MAX && files_wf(p.1@.map_values(|f: FileRecord| f@))
                && input@.subrange(pos as int, p.3 as int) == spec_members(
                p.0@.map_values(|q: Pubkey| q@),
            ) + spec_file_records(p.1@.map_values(|f: FileRecord| f@)) + spec_i64_le(p.2),
            None => true,
        },
        forall|nv: NetworkV|
            nv.wf() && nv.members.len() <= u32::MAX && #[trigger] starts_at(
                input@,
                pos as int,
                spec_network_state(nv),
            ) ==> r is Some && r->Some_0.0@.map_values(|q: Pubkey| q@) == nv.members
                && r->Some_0.1@.map_values(|f: FileRecord| f@) == nv.files && r->Some_0.2
                == nv.created_at && r->Some_0.3 == pos + spec_network_state(nv).len(),
{
    let (members, p1) = match decode_members_at(input, pos) {
        None => {
            proof {
                assert forall|nv: NetworkV|
                    nv.wf() && nv.members.len() <= u32::MAX && #[trigger] starts_at(
                        input@,
                        pos as int,
                        spec_network_state(nv),
                    ) implies false by {
                    lemma_network_state_split(input@, pos as int, nv);
                }
            }
            return None;
        },
        Some(t) => t,
    };
    let (files, p2) = match decode_file_records_at(input, p1) {
        None => {
            proof {
                assert forall|nv: NetworkV|
                    nv.wf() && nv.members.len() <= u32::MAX && #[trigger] starts_at(
                        input@,
                        pos as int,
                        spec_network_state(nv),
                    ) implies false by {
                    lemma_network_state_split(input@, pos as int, nv);
                }
            }
            return None;
        },
        Some(t) => t,
    };
    let (created_at, p3) = match decode_i64_le(input, p2) {
        None => {
            proof {
                assert forall|nv: NetworkV|
                    nv.wf() && nv.members.len() <= u32::MAX && #[trigger] starts_at(
                        input@,
                        pos as int,
                        spec_network_state(nv),
                    ) implies false by {
                    lemma_network_state_split(input@, pos as int, nv);
                }
            }
            return None;
        },
        Some(t) => t,
    };
    proof {
        assert(input@.subrange(pos as int, p2 as int) =~= input@.subrange(pos as int, p1 as int)
            + input@.subrange(p1 as int, p2 as int));
        assert(input@.subrange(pos as int, p3 as int) =~= input@.subrange(pos as int, p2 as int)
            + input@.subrange(p2 as int, p3 as int));
        assert forall|nv: NetworkV|
            nv.wf() && nv.members.len() <= u32::MAX && #[trigger] starts_at(
                input@,
                pos as int,
                spec_network_state(nv),
            ) implies (members@.map_values(|q: Pubkey| q@) == nv.members && files@.map_values(
            |f: FileRecord| f@,
        ) == nv.files && created_at == nv.created_at && p3 == pos + spec_network_state(
            nv,
        ).len()) by {
            lemma_network_state_split(input@, pos as int, nv);
        }
    }
    Some((members, files, created_at, p3))
}

/// Decodes a whole network record, rejecting trailing bytes. Decoding
/// succeeds exactly on the encoding of a well-formed network whose member
/// count fits its prefix — then the result is that network, byte-exactly —
/// and reports `CorruptData` otherwise.
#[verifier::rlimit(100)]
#[verifier::spinoff_prover]
pub fn decode_network(input: &Vec<u8>) -> (r: Result<Network, ErrorCode>)
    ensures
        match r {
            Ok(n) => n@.wf() && n@.members.len() <= u32::MAX && input@ == spec_network(n@),
            Err(e) => e == ErrorCode::CorruptData,
        },
        forall|nv: NetworkV|
            nv.wf() && nv.members.len() <= u32::MAX && input@ == #[trigger] spec_network(nv) ==> r
                is Ok && r->Ok_0@ == nv,
{
    proof {
        assert forall|nv: NetworkV|
            nv.wf() && nv.members.len() <= u32::MAX && input@ == #[trigger] spec_network(nv)
            implies starts_at(input@, 0, spec_network(nv)) && starts_at(
            input@,
            0,
            spec_network_ident(nv),
        ) && starts_at(input@, spec_network_ident(nv).len() as int, spec_network_state(nv)) by {
            assert(input@.subrange(0, input@.len() as int) =~= input@);
            lemma_starts_at_concat(input@, 0, spec_network_ident(nv), spec_network_state(nv));
        }
    }
    let (authority, name, encrypted_join_key, encrypted_data, p1) = match decode_network_ident(
        input,
        0,
    ) {
        None => {
            return Err(ErrorCode::CorruptData);
        },
        Some(t) => t,
    };
    let (members, files, created_at, p2) = match decode_network_state(input, p1) {
        None => {
            return Err(ErrorCode::CorruptData);
        },
        Some(t) => t,
    };
    if p2 != input.len() {
        return Err(ErrorCode::CorruptData);
    }
    let n = Network {
        authority,
        name,
        encrypted_join_key,
        encrypted_data,
        members,
        files,
        created_at,
    };
    proof {
        assert(input@.subrange(0, p2 as int) =~= input@.subrange(0, p1 as int) + input@.subrange(
            p1 as int,
            p2 as int,
        ));
        assert(input@.subrange(0, p2 as int) =~= input@);
        assert(input@ == spec_network(n@));
        assert forall|nv: NetworkV|
            nv.wf() && nv.members.len() <= u32::MAX && input@ == #[trigger] spec_network(nv)
            implies (n@ =~= nv) by {}
    }
    Ok(n)
}

/// Decodes a whole file record, rejecting trailing bytes. Whenever the input
/// is exactly the encoding of a well-formed record, the result is exactly
/// that record; otherwise the input is corrupt.
pub fn decode_file_record(input: &Vec<u8>) -> (r: Result<FileRecord, ErrorCode>)
    ensures
        match r {
            Ok(f) => f@.wf() && input@ == spec_file_record(f@),
            Err(e) => e == ErrorCode::CorruptData,
        },
        forall|fv: FileRecordV|
            fv.wf() && input@ == #[trigger] spec_file_record(fv) ==> r is Ok && r->Ok_0@ == fv,
{
    proof {
        assert forall|fv: FileRecordV|
            fv.wf() && input@ == #[trigger] spec_file_record(fv) implies starts_at(
            input@,
            0,
            spec_file_record(fv),
        ) by {
            assert(input@.subrange(0, input@.len() as int) =~= input@);
        }
    }
    match decode_file_record_at(input, 0) {
        None => Err(ErrorCode::CorruptData),
        Some((f, end)) => {
            if end != input.len() {
                return Err(ErrorCode::CorruptData);
            }
            proof {
                assert(input@.subrange(0, end as int) =~= input@);
            }
            Ok(f)
        },
    }
}


} // verus!
