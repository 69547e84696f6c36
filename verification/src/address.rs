//! The address deriver: a deterministic, collision-free storage key computed
//! from a namespace tag and one identifying seed. A user profile's address is
//! derived from the `user` namespace and the authority's key; a network's
//! address from the `network` namespace and the network's name. Callers treat
//! the result as opaque and stable.

use vstd::prelude::*;
use crate::keys::Pubkey;

verus! {

/// A derived address: the namespace tag together with the seed that was fed
/// to the deriver. Two derivations collide exactly when both the namespace
/// and the seed coincide, so one record per authority and one network per
/// name are enforced by construction.
pub enum Address {
    /// Namespace `user`, seeded with the authority's identity key.
    User { key: Pubkey },
    /// Namespace `network`, seeded with the network's name.
    Network { name: String },
}

/// The mathematical view of an `Address`.
#[verifier::ext_equal]
pub enum AddressV {
    User { key: Seq<u8> },
    Network { name: Seq<char> },
}

impl View for Address {
    type V = AddressV;

    open spec fn view(&self) -> AddressV {
        match self {
            Address::User { key } => AddressV::User { key: key@ },
            Address::Network { name } => AddressV::Network { name: name@ },
        }
    }
}

impl Address {
    /// A user address is well formed when its seed is a well-formed key.
    pub open spec fn wf(&self) -> bool {
        match self {
            Address::User { key } => key.wf(),
            Address::Network { name: _ } => true,
        }
    }

    /// Equality of two derived addresses.
    pub fn addr_eq(&self, other: &Address) -> (r: bool)
        ensures
            r == (self@ == other@),
    {
        match (self, other) {
            (Address::User { key: k1 }, Address::User { key: k2 }) => {
                let r = k1.key_eq(k2);
                assert(self@ == (AddressV::User { key: k1@ }));
                assert(other@ == (AddressV::User { key: k2@ }));
                assert((self@ == other@) == (k1@ == k2@));
                r
            },
            (Address::Network { name: n1 }, Address::Network { name: n2 }) => {
                let r = *n1 == *n2;
                assert(self@ == (AddressV::Network { name: n1@ }));
                assert(other@ == (AddressV::Network { name: n2@ }));
                assert((self@ == other@) == (n1@ == n2@));
                r
            },
            (Address::User { .. }, Address::Network { .. }) => {
                assert(self@ is User && other@ is Network);
                false
            },
            (Address::Network { .. }, Address::User { .. }) => {
                assert(self@ is Network && other@ is User);
                false
            },
        }
    }
}

impl Clone for Address {
    /// Copies the address; the copy views equal to the original.
    fn clone(&self) -> (r: Self)
        ensures
            r@ == self@,
    {
        match self {
            Address::User { key } => Address::User { key: key.clone() },
            Address::Network { name } => Address::Network { name: name.clone() },
        }
    }
}

/// Derives the storage address of the profile owned by `authority`.
/// Deterministic and free of side effects: equal keys give equal addresses.
pub fn derive_user_address(authority: &Pubkey) -> (addr: Address)
    ensures
        addr@ == (AddressV::User { key: authority@ }),
{
    Address::User { key: authority.clone() }
}

/// Derives the storage address of the network called `name`.
/// Deterministic and free of side effects: equal names give equal addresses.
pub fn derive_network_address(name: &String) -> (addr: Address)
    ensures
        addr@ == (AddressV::Network { name: name@ }),
{
    Address::Network { name: name.clone() }
}

/// The deriver's contract: derivation is injective. Two derived addresses
/// are equal exactly when they come from the same namespace and equal seeds,
/// so distinct authorities (or distinct names) can never collide.
pub proof fn lemma_derivation_injective(a: AddressV, b: AddressV)
    ensures
        a == b <==> match (a, b) {
            (AddressV::User { key: k1 }, AddressV::User { key: k2 }) => k1 == k2,
            (AddressV::Network { name: n1 }, AddressV::Network { name: n2 }) => n1 == n2,
            _ => false,
        },
{
}

} // verus!
