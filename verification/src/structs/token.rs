use vstd::prelude::*;
use crate::structs::equippable_attributes::copy_bytes;
use crate::utils::managed_buffer_utils::bytes_eq;

verus! {

/// A token as a plain value: its identifier and its nonce.
pub type TokenV = (Seq<u8>, u64);

/// One token of a collection: the collection identifier and the nonce.
pub struct Token {
    pub token: Vec<u8>,
    pub nonce: u64,
}

impl View for Token {
    type V = TokenV;

    open spec fn view(&self) -> TokenV {
        (self.token@, self.nonce)
    }
}

impl Token {
    pub fn new(token: Vec<u8>, nonce: u64) -> (r: Self)
        ensures
            r@ == (token@, nonce),
    {
        Token { token, nonce }
    }

    /// A copy of the token.
    pub fn copy(&self) -> (r: Self)
        ensures
            r@ == self@,
    {
        Token { token: copy_bytes(&self.token), nonce: self.nonce }
    }

    /// Whether both name the same token.
    pub fn same_as(&self, other: &Self) -> (r: bool)
        ensures
            r == (self@ == other@),
    {
        self.nonce == other.nonce && bytes_eq(&self.token, &other.token)
    }
}

impl Default for Token {
    /// The token read where none is stored: empty identifier, nonce 0.
    fn default() -> (r: Self)
        ensures
            r@ == (Seq::<u8>::empty(), 0u64),
    {
        let r = Token { token: Vec::new(), nonce: 0 };
        assert(r.token@ =~= Seq::<u8>::empty());
        r
    }
}

impl PartialEq for Token {
    fn eq(&self, other: &Self) -> (r: bool) {
        self.same_as(other)
    }
}

impl vstd::std_specs::cmp::PartialEqSpecImpl for Token {
    open spec fn obeys_eq_spec() -> bool {
        true
    }

    open spec fn eq_spec(&self, other: &Self) -> bool {
        self@ == other@
    }
}

} // verus!
