//! Identity keys: the signing identities that own records.

use vstd::prelude::*;
use vstd::std_specs::cmp::PartialEqSpec;

verus! {

/// The length in bytes of an identity key.
pub const PUBKEY_LEN: usize = 32;

/// A fixed-length identity key. The holder of the corresponding signing key
/// is the only party allowed to mutate the records it owns; the host boundary
/// verifies the signature and hands the verified identity to the transitions.
pub struct Pubkey {
    pub bytes: Vec<u8>,
}

impl View for Pubkey {
    type V = Seq<u8>;

    open spec fn view(&self) -> Seq<u8> {
        self.bytes@
    }
}

impl Pubkey {
    /// A key is well formed when it holds exactly `PUBKEY_LEN` bytes.
    pub open spec fn wf(&self) -> bool {
        self@.len() == PUBKEY_LEN
    }

    /// Builds a key from raw bytes; any length other than `PUBKEY_LEN` is rejected.
    pub fn new(bytes: Vec<u8>) -> (r: Option<Pubkey>)
        ensures
            match r {
                Some(k) => k@ == bytes@ && k.wf(),
                None => bytes@.len() != PUBKEY_LEN,
            },
    {
        if bytes.len() == PUBKEY_LEN {
            Some(Pubkey { bytes })
        } else {
            None
        }
    }

    /// Byte-for-byte equality of two keys.
    pub fn key_eq(&self, other: &Pubkey) -> (r: bool)
        ensures
            r == (self@ == other@),
    {
        let r = self.bytes == other.bytes;
        proof {
            if r {
                assert(self@ =~= other@);
            } else {
                if self@ == other@ {
                    assert(self.bytes.eq_spec(&other.bytes));
                }
            }
        }
        r
    }
}

/// Copies a byte vector element by element.
pub fn clone_bytes(v: &Vec<u8>) -> (r: Vec<u8>)
    ensures
        r@ == v@,
{
    let mut out: Vec<u8> = Vec::new();
    let mut i: usize = 0;
    while i < v.len()
        invariant
            i <= v@.len(),
            out@ == v@.take(i as int),
        decreases v@.len() - i,
    {
        out.push(v[i]);
        i = i + 1;
        proof {
            assert(out@ =~= v@.take(i as int));
        }
    }
    proof {
        assert(v@.take(v@.len() as int) =~= v@);
    }
    out
}

impl Clone for Pubkey {
    /// Copies the key; the copy views equal to the original.
    fn clone(&self) -> (r: Self)
        ensures
            r@ == self@,
    {
        Pubkey { bytes: clone_bytes(&self.bytes) }
    }
}

} // verus!
