//! Numeric ids of accounts, with whether each account is active.
use vstd::prelude::*;

verus! {

/// The numeric id given to an account.
#[derive(Debug, Clone, Copy, PartialEq, Eq, Structural)]
pub struct DidId(pub u64);

/// An account's id and whether the account is active.
#[derive(Debug, Clone, Copy, PartialEq, Eq, Structural)]
pub struct DidIdValue(pub DidId, pub bool);

impl DidIdValue {
    /// The account's id.
    pub fn did_id(&self) -> (r: DidId)
        ensures
            r == self.0,
    {
        let DidIdValue(id, _) = *self;
        id
    }

    /// Whether the account is active.
    pub fn is_active(&self) -> (r: bool)
        ensures
            r == self.1,
    {
        let DidIdValue(_, active) = *self;
        active
    }
}

} // verus!
