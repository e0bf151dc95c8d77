//! Contract-administration choice: who, if anyone, may administer a newly
//! instantiated contract.

use vstd::prelude::*;
use crate::bytes::clone_bytes;

verus! {

/// An account address: an opaque byte string.
#[derive(Debug)]
pub struct Addr {
    bytes: Vec<u8>,
}

impl View for Addr {
    type V = Seq<u8>;

    closed spec fn view(&self) -> Seq<u8> {
        self.bytes@
    }
}

impl Addr {
    /// An address holding the given bytes.
    pub fn new(bytes: Vec<u8>) -> (r: Self)
        ensures
            r@ == bytes@,
    {
        Self { bytes }
    }

    /// The address's bytes.
    pub fn as_bytes(&self) -> (r: &Vec<u8>)
        ensures
            r@ == self@,
    {
        &self.bytes
    }

    /// A fresh copy of the address.
    pub fn clone_addr(&self) -> (r: Self)
        ensures
            r@ == self@,
    {
        Self { bytes: clone_bytes(&self.bytes) }
    }
}

/// The admin choice made when instantiating a contract: a given address,
/// the contract itself, or nobody.
#[derive(Debug)]
pub enum AdminOption {
    SetToAddr(Addr),
    SetToSelf,
    SetToNone,
}

impl AdminOption {
    /// The choice as a spec-level optional address, resolved against the
    /// contract's own address.
    pub open spec fn decided(&self, self_addr: Seq<u8>) -> Option<Seq<u8>> {
        match self {
            AdminOption::SetToAddr(addr) => Some(addr@),
            AdminOption::SetToSelf => Some(self_addr),
            AdminOption::SetToNone => None,
        }
    }

    /// Resolve the choice: the given address, a copy of the contract's own
    /// address, or nothing.
    pub fn decide(self, self_addr: &Addr) -> (r: Option<Addr>)
        ensures
            match r {
                Some(a) => self.decided(self_addr@) == Some(a@),
                None => self.decided(self_addr@) is None,
            },
    {
        match self {
            AdminOption::SetToAddr(addr) => Some(addr),
            AdminOption::SetToSelf => Some(self_addr.clone_addr()),
            AdminOption::SetToNone => None,
        }
    }
}

} // verus!
