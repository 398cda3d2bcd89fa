//! Opaque account addresses.

use vstd::prelude::*;

verus! {

/// An opaque account identity. The core never interprets it: it is only
/// compared for equality and used as a ledger key. Its mathematical view
/// is the character sequence of the underlying string.
pub struct Address {
    pub id: String,
}

impl View for Address {
    type V = Seq<char>;

    open spec fn view(&self) -> Seq<char> {
        self.id@
    }
}

impl Address {
    /// Equality of two addresses, decided by their views.
    pub fn same(&self, other: &Address) -> (r: bool)
        ensures
            r == (self@ == other@),
    {
        self.id == other.id
    }

    /// An owned copy, equal to the original.
    pub fn dup(&self) -> (r: Address)
        ensures
            r == *self,
    {
        Address { id: self.id.clone() }
    }
}

impl From<String> for Address {
    fn from(id: String) -> (r: Address) {
        Address { id }
    }
}

impl vstd::std_specs::convert::FromSpecImpl<String> for Address {
    open spec fn obeys_from_spec() -> bool {
        true
    }

    open spec fn from_spec(id: String) -> Address {
        Address { id }
    }
}

} // verus!
