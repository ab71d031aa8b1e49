//! Identities: a fixed-size 32-byte address naming a storage slot or a
//! caller, and the capability token handed over by the external signature
//! verifier once a caller has proved control of an address.

use vstd::prelude::*;

verus! {

/// A fixed-size public identity value: the name of a storage slot, or of a
/// caller submitting entries. Its view is the sequence of its 32 bytes.
#[derive(Clone, Copy)]
pub struct Address {
    pub bytes: [u8; 32],
}

impl View for Address {
    type V = Seq<u8>;

    open spec fn view(&self) -> Seq<u8> {
        self.bytes@
    }
}

impl Address {
    /// Builds the address made of the given 32 bytes.
    pub fn new(bytes: [u8; 32]) -> (a: Address)
        ensures
            a@ == bytes@,
    {
        Address { bytes }
    }

    /// Byte-for-byte equality of two addresses.
    pub fn equals(&self, other: &Address) -> (r: bool)
        ensures
            r <==> self@ == other@,
    {
        let mut i: usize = 0;
        while i < 32
            invariant
                i <= 32,
                forall|j: int| 0 <= j < i ==> self.bytes@[j] == other.bytes@[j],
            decreases 32 - i,
        {
            if self.bytes[i] != other.bytes[i] {
                assert(self@[i as int] != other@[i as int]);
                return false;
            }
            i = i + 1;
        }
        assert(self@ =~= other@);
        true
    }
}

/// A capability token issued by the external identity/signature verifier:
/// holding a `Signer` for an address attests that the current call carries
/// a valid signature by that address. The service compares the attested
/// address against the identity an operation declares; it never inspects
/// signatures itself.
#[derive(Clone, Copy)]
pub struct Signer {
    pub address: Address,
}

impl Signer {
    /// Wraps an address the external verifier has vouched for.
    pub fn new(address: Address) -> (s: Signer)
        ensures
            s.address@ == address@,
    {
        Signer { address }
    }
}

} // verus!
