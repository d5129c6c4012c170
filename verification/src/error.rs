use vstd::prelude::*;

verus! {

/// Why a buffer could not be read as an account, or why a feed was turned down.
#[derive(Debug, Clone, Copy, PartialEq, Eq, Structural)]
pub enum AccountError {
    /// The buffer ends before the eight-byte type tag does.
    AccountTooShort,
    /// The first eight bytes are not the tag of the account type asked for.
    DiscriminatorMismatch,
    /// The record behind the tag is cut short, or a byte in it holds a value
    /// that its field cannot take.
    ReadExhausted,
    /// The last confirmed round is older than the caller allows.
    StaleFeed,
}

} // verus!
