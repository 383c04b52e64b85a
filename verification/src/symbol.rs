//! A symbol: a run of octets that is encoded and decoded as one unit.

use vstd::prelude::*;

verus! {

/// A symbol's octets.
#[derive(Clone, Debug, PartialEq, Eq, Hash)]
pub struct Symbol {
    value: Vec<u8>,
}

impl View for Symbol {
    type V = Seq<u8>;

    closed spec fn view(&self) -> Seq<u8> {
        self.value@
    }
}

impl Symbol {
    /// The symbol with the given octets.
    pub fn new(value: Vec<u8>) -> (res: Symbol)
        ensures
            res@ == value@,
    {
        Symbol { value }
    }

    /// The number of octets.
    pub fn len(&self) -> (res: usize)
        ensures
            res == self@.len(),
    {
        self.value.len()
    }

    /// The octets.
    pub fn as_bytes(&self) -> (res: &[u8])
        ensures
            res@ == self@,
    {
        self.value.as_slice()
    }
}

} // verus!
