//! Object ids: 20-byte SHA-1 content addresses.

use vstd::prelude::*;

verus! {

/// Number of bytes in an object id.
pub const OID_SIZE: usize = 20;

/// The all-zero object id, meaning "nonexistent".
pub open spec fn zero_oid() -> Seq<u8> {
    Seq::new(OID_SIZE as nat, |i: int| 0u8)
}

/// A Git object id: a 20-byte SHA-1 content address.
///
/// The all-zero value is distinguished and stands for "nonexistent", e.g. as
/// the previous value of a reference that is being created.
#[derive(Debug)]
pub struct Oid {
    bytes: Vec<u8>,
}

impl View for Oid {
    type V = Seq<u8>;

    closed spec fn view(&self) -> Seq<u8> {
        self.bytes@
    }
}

impl Clone for Oid {
    fn clone(&self) -> (r: Self)
        ensures
            r@ == self@,
    {
        let bytes = self.bytes.clone();
        proof {
            assert(bytes@ =~= self@);
        }
        Oid { bytes }
    }
}

impl Oid {
    /// Well-formed object ids hold exactly [`OID_SIZE`] bytes.
    pub open spec fn wf(&self) -> bool {
        self@.len() == OID_SIZE
    }

    pub open spec fn spec_is_zero(&self) -> bool {
        self@ == zero_oid()
    }

    /// The distinguished "nonexistent" object id.
    pub fn zero() -> (r: Oid)
        ensures
            r.wf(),
            r@ == zero_oid(),
    {
        let bytes: Vec<u8> = vec![0u8; OID_SIZE];
        proof {
            assert(bytes@ =~= zero_oid());
        }
        Oid { bytes }
    }

    /// Make an object id out of its bytes; `None` unless exactly
    /// [`OID_SIZE`] bytes are given.
    pub fn from_bytes(bytes: Vec<u8>) -> (r: Option<Oid>)
        ensures
            match r {
                Some(oid) => oid.wf() && oid@ == bytes@ && bytes@.len() == OID_SIZE,
                None => bytes@.len() != OID_SIZE,
            },
    {
        if bytes.len() == OID_SIZE {
            Some(Oid { bytes })
        } else {
            None
        }
    }

    /// The raw bytes of the object id.
    pub fn bytes(&self) -> (r: &Vec<u8>)
        ensures
            r@ == self@,
    {
        &self.bytes
    }

    /// Whether this is the distinguished "nonexistent" id.
    pub fn is_zero(&self) -> (r: bool)
        requires
            self.wf(),
        ensures
            r == self.spec_is_zero(),
    {
        let mut i: usize = 0;
        while i < OID_SIZE
            invariant
                self.wf(),
                i <= OID_SIZE,
                forall|j: int| 0 <= j < i ==> self@[j] == 0u8,
            decreases OID_SIZE - i,
        {
            if self.bytes[i] != 0u8 {
                proof {
                    assert(self@[i as int] != zero_oid()[i as int]);
                }
                return false;
            }
            i = i + 1;
        }
        proof {
            assert(self@ =~= zero_oid());
        }
        true
    }
}

impl PartialEq for Oid {
    fn eq(&self, other: &Oid) -> (r: bool) {
        let r = self.bytes == other.bytes;
        proof {
            if r {
                assert(self@ =~= other@);
            } else {
                assert(self@ != other@);
            }
        }
        r
    }
}

impl vstd::std_specs::cmp::PartialEqSpecImpl for Oid {
    open spec fn obeys_eq_spec() -> bool {
        true
    }

    open spec fn eq_spec(&self, other: &Oid) -> bool {
        self@ == other@
    }
}

} // verus!
