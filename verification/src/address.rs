//! Account addresses.
use crate::digits::zeros;
use crate::u256::DecodeError;
use vstd::prelude::*;

verus! {

/// The length of an address in bytes.
pub const ADDRESS_SIZE: usize = 20;

/// The hex digit for `n < 16`, lower case.
pub open spec fn hex_digit(n: u8) -> char {
    if n < 10 {
        (48 + n) as char
    } else {
        (87 + n) as char
    }
}

/// Two lower-case hex digits per byte, the high half first.
pub open spec fn hex_lower(s: Seq<u8>) -> Seq<char>
    decreases s.len(),
{
    if s.len() == 0 {
        Seq::empty()
    } else {
        seq![hex_digit(s[0] / 16), hex_digit(s[0] % 16)] + hex_lower(s.drop_first())
    }
}

/// `hex::encode`: two lower-case hex digits per byte, the high half of each
/// byte first.
#[verifier::external_body]
fn hex_encode(data: &[u8]) -> (r: String)
    ensures
        r@ == hex_lower(data@),
{
    hex::encode(data)
}

/// Whether the comparison of `a` with `b` is defined: it reads `b` over the
/// length of `a`, or stops earlier at a differing byte.
pub open spec fn address_eq_defined(a: Seq<u8>, b: Seq<u8>) -> bool {
    a.len() <= b.len() || a.take(b.len() as int) != b
}

/// The result of comparing `a` with `b`: `b` begins with `a`.
pub open spec fn address_eq(a: Seq<u8>, b: Seq<u8>) -> bool {
    a.len() <= b.len() && a == b.take(a.len() as int)
}

/// An account address as raw bytes.
pub struct Address {
    data: Vec<u8>,
}

impl Address {
    pub closed spec fn bytes(&self) -> Seq<u8> {
        self.data@
    }

    /// Wraps the given bytes as they are.
    pub fn new(v: Vec<u8>) -> (r: Address)
        ensures
            r.bytes() == v@,
    {
        Address { data: v }
    }

    /// Accepts the bytes of an encoded address if there are twenty; any other
    /// length is refused.
    pub fn decode_value(v: Vec<u8>) -> (r: Result<Address, DecodeError>)
        ensures
            match r {
                Ok(a) => v@.len() == ADDRESS_SIZE && a.bytes() == v@,
                Err(e) => v@.len() != ADDRESS_SIZE && e == DecodeError::AddressSize,
            },
    {
        if v.len() != ADDRESS_SIZE {
            Err(DecodeError::AddressSize)
        } else {
            Ok(Address { data: v })
        }
    }

    /// The address of twenty zero bytes.
    pub fn default() -> (r: Address)
        ensures
            r.bytes() == zeros(ADDRESS_SIZE as nat),
    {
        Address { data: crate::digits::zero_vec(ADDRESS_SIZE) }
    }

    pub fn as_slice(&self) -> (r: &[u8])
        ensures
            r@ == self.bytes(),
    {
        self.data.as_slice()
    }

    /// A copy with the same bytes.
    pub fn clone(&self) -> (r: Address)
        ensures
            r.bytes() == self.bytes(),
    {
        Address { data: crate::digits::copy_bytes(self.data.as_slice()) }
    }

    /// The bytes in lower-case hex.
    pub fn to_string(&self) -> (r: String)
        ensures
            r@ == hex_lower(self.bytes()),
    {
        hex_encode(self.data.as_slice())
    }

    /// `==` on addresses: whether `other` begins with this address's bytes,
    /// compared byte by byte over the length of `self`. It is defined unless
    /// `other` is a proper prefix of `self`, where it would read past the end
    /// of `other`.
    pub fn eq(&self, other: &Address) -> (r: bool)
        requires
            address_eq_defined(self.bytes(), other.bytes()),
        ensures
            r == address_eq(self.bytes(), other.bytes()),
    {
        let mut i: usize = 0;
        while i < self.data.len()
            invariant
                i <= self.data.len(),
                i <= other.data.len(),
                address_eq_defined(self.bytes(), other.bytes()),
                self.data@ == self.bytes(),
                other.data@ == other.bytes(),
                self.data@.take(i as int) == other.data@.take(i as int),
            decreases self.data.len() - i,
        {
            if i == other.data.len() {
                proof {
                    assert(other.data@ =~= other.data@.take(i as int));
                }
                assert(false);
            }
            if self.data[i] != other.data[i] {
                proof {
                    if self.data.len() <= other.data.len() {
                        assert(self.data@[i as int] != other.data@.take(self.data.len() as int)[i as int]);
                    }
                }
                return false;
            }
            i = i + 1;
            assert(self.data@.take(i as int) =~= other.data@.take(i as int));
        }
        assert(self.data@ =~= self.data@.take(i as int));
        true
    }
}

} // verus!
