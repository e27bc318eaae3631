//! Types and interfaces shared by the pallets.

use vstd::prelude::*;

pub mod assets;
pub mod currency;
pub mod prices;

verus! {

/// Who holds a balance.
pub type AccountId = u64;

/// An amount of an asset.
pub type Balance = u128;

/// The number of a ledger cycle.
pub type BlockNumber = u64;

/// On whose behalf an operation is asked for.
#[derive(Clone, Copy, Debug, PartialEq, Eq, Structural)]
pub enum Caller {
    /// The privileged caller.
    Root,
    /// An ordinary account.
    Signed(AccountId),
    /// The system itself, without a signer.
    Unsigned,
}

/// Why an operation was refused.
#[derive(Clone, Copy, Debug, PartialEq, Eq, Structural)]
pub enum DispatchError {
    /// The caller may not ask for this operation.
    BadOrigin,
    /// The asset registry refused.
    Assets(crate::assets::Error),
    /// The ledger refused.
    Balances(crate::balances::Error),
    /// The price oracle refused.
    Oracle(crate::oracle::Error),
    /// The deposit engine refused.
    Distribution(crate::distribution::Error),
}

/// Why a transaction is not valid.
#[derive(Clone, Copy, Debug, PartialEq, Eq, Structural)]
pub enum InvalidTransaction {
    /// The payer cannot pay the fee.
    Payment,
    /// The transaction comes too late.
    Stale,
}

/// Why the validity of a transaction cannot be told.
#[derive(Clone, Copy, Debug, PartialEq, Eq, Structural)]
pub enum UnknownTransaction {
    /// Nothing validates this call when it is not signed.
    NoUnsignedValidator,
}

/// Why a transaction is refused before it runs.
#[derive(Clone, Copy, Debug, PartialEq, Eq, Structural)]
pub enum TransactionValidityError {
    Invalid(InvalidTransaction),
    Unknown(UnknownTransaction),
}

/// The account that `origin` signs for, if it signs for one.
pub fn ensure_signed(origin: Caller) -> (r: Result<AccountId, DispatchError>)
    ensures
        r == match origin {
            Caller::Signed(who) => Ok::<AccountId, DispatchError>(who),
            _ => Err(DispatchError::BadOrigin),
        },
{
    match origin {
        Caller::Signed(who) => Ok(who),
        _ => Err(DispatchError::BadOrigin),
    }
}

/// Passes only the privileged caller.
pub fn ensure_root(origin: Caller) -> (r: Result<(), DispatchError>)
    ensures
        r == if origin == Caller::Root {
            Ok::<(), DispatchError>(())
        } else {
            Err(DispatchError::BadOrigin)
        },
{
    match origin {
        Caller::Root => Ok(()),
        _ => Err(DispatchError::BadOrigin),
    }
}

/// Passes only the system itself.
pub fn ensure_none(origin: Caller) -> (r: Result<(), DispatchError>)
    ensures
        r == if origin == Caller::Unsigned {
            Ok::<(), DispatchError>(())
        } else {
            Err(DispatchError::BadOrigin)
        },
{
    match origin {
        Caller::Unsigned => Ok(()),
        _ => Err(DispatchError::BadOrigin),
    }
}

} // verus!
