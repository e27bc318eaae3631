//! What a ledger of balances offers, stated over total maps from
//! (account, asset) to the amount held.

use vstd::prelude::*;
use crate::balances::Error;
use crate::primitives::assets::{AssetGetter, AssetId};
use crate::math::capped;
use crate::primitives::prices::{worth_of_rows, PriceGetter};
use crate::primitives::{AccountId, Balance, DispatchError};
use crate::storage::{amount_in, asset_sum, distinct_keys, no_zero, rows_with, view_of, Row};

verus! {

/// The amount that every account holds of every asset.
pub type Accounts = Map<(AccountId, Seq<u8>), Balance>;

/// The error that `assets` answers a check of `asset` with, if any.
pub open spec fn refusal<A: AssetGetter>(assets: &A, asset: Seq<u8>) -> Option<DispatchError> {
    if assets.registered().contains_key(asset) {
        None
    } else {
        Some(assets.not_found())
    }
}

/// `m` after `who` receives `amount` of `asset`; nothing if that would pass
/// the largest amount.
pub open spec fn credit(m: Accounts, who: AccountId, asset: Seq<u8>, amount: Balance) -> Option<
    Accounts,
> {
    if m[(who, asset)] + amount > Balance::MAX {
        None
    } else {
        Some(m.insert((who, asset), (m[(who, asset)] + amount) as Balance))
    }
}

/// `m` after `amount` of `asset` is taken from `who`; nothing if `who` holds
/// less.
pub open spec fn debit(m: Accounts, who: AccountId, asset: Seq<u8>, amount: Balance) -> Option<
    Accounts,
> {
    if m[(who, asset)] < amount {
        None
    } else {
        Some(m.insert((who, asset), (m[(who, asset)] - amount) as Balance))
    }
}

/// Taking `amount` of `asset` from `from` and giving it to `to`, both or
/// neither: `short` is the error of a `from` that holds too little.
pub open spec fn moved(
    m: Accounts,
    from: AccountId,
    to: AccountId,
    asset: Seq<u8>,
    amount: Balance,
    short: Error,
) -> Result<Accounts, DispatchError> {
    match debit(m, from, asset, amount) {
        None => Err(DispatchError::Balances(short)),
        Some(taken) => match credit(taken, to, asset, amount) {
            None => Err(DispatchError::Balances(Error::Overflow)),
            Some(given) => Ok(given),
        },
    }
}

/// Minting: the treasury pays `who`.
pub open spec fn minted(
    m: Accounts,
    refused: Option<DispatchError>,
    treasury: AccountId,
    who: AccountId,
    asset: Seq<u8>,
    amount: Balance,
) -> Result<Accounts, DispatchError> {
    match refused {
        Some(e) => Err(e),
        None => moved(m, treasury, who, asset, amount, Error::InsufficientTreasury),
    }
}

/// Burning: `who` pays the treasury.
pub open spec fn burnt(
    m: Accounts,
    refused: Option<DispatchError>,
    treasury: AccountId,
    who: AccountId,
    asset: Seq<u8>,
    amount: Balance,
) -> Result<Accounts, DispatchError> {
    match refused {
        Some(e) => Err(e),
        None => moved(m, who, treasury, asset, amount, Error::InsufficientFunds),
    }
}

/// Transferring: `from` pays `to`.
pub open spec fn transferred(
    m: Accounts,
    refused: Option<DispatchError>,
    from: AccountId,
    to: AccountId,
    asset: Seq<u8>,
    amount: Balance,
) -> Result<Accounts, DispatchError> {
    match refused {
        Some(e) => Err(e),
        None => moved(m, from, to, asset, amount, Error::InsufficientFunds),
    }
}

/// The rows after `who` receives `amount` of `asset`.
pub open spec fn rows_credited(rows: Seq<Row>, who: AccountId, asset: Seq<u8>, amount: Balance) -> Seq<Row> {
    rows_with(rows, who, asset, (amount_in(rows, who, asset) + amount) as Balance)
}

/// The rows after `amount` of `asset` is taken from `who`.
pub open spec fn rows_debited(rows: Seq<Row>, who: AccountId, asset: Seq<u8>, amount: Balance) -> Seq<Row> {
    rows_with(rows, who, asset, (amount_in(rows, who, asset) - amount) as Balance)
}

/// The rows after `from` has paid `amount` of `asset` to `to`: a balance that
/// becomes zero leaves the rows, one that comes to be joins them at the end.
pub open spec fn rows_moved(
    rows: Seq<Row>,
    from: AccountId,
    to: AccountId,
    asset: Seq<u8>,
    amount: Balance,
) -> Seq<Row> {
    rows_credited(rows_debited(rows, from, asset, amount), to, asset, amount)
}

/// A payment that goes through keeps the sum of every asset over all
/// accounts, keeps the rows free of repeats and of zeros, and makes the rows
/// read as the balances after the payment.
pub proof fn lemma_rows_moved(
    rows: Seq<Row>,
    from: AccountId,
    to: AccountId,
    asset: Seq<u8>,
    amount: Balance,
    short: Error,
)
    requires
        distinct_keys(rows),
        no_zero(rows),
        moved(view_of(rows), from, to, asset, amount, short) is Ok,
    ensures
        distinct_keys(rows_moved(rows, from, to, asset, amount)),
        no_zero(rows_moved(rows, from, to, asset, amount)),
        view_of(rows_moved(rows, from, to, asset, amount)) == moved(
            view_of(rows),
            from,
            to,
            asset,
            amount,
            short,
        )->Ok_0,
        forall|other: Seq<u8>| #[trigger]
            asset_sum(rows_moved(rows, from, to, asset, amount), other) == asset_sum(rows, other),
{
    let held = amount_in(rows, from, asset);
    let taken = rows_debited(rows, from, asset, amount);
    crate::storage::lemma_rows_with(rows, from, asset, (held - amount) as Balance);
    crate::storage::lemma_rows_with_no_zero(rows, from, asset, (held - amount) as Balance);
    crate::storage::lemma_rows_with_reads(rows, from, asset, (held - amount) as Balance, to, asset);
    let had = amount_in(taken, to, asset);
    let given = rows_moved(rows, from, to, asset, amount);
    crate::storage::lemma_rows_with(taken, to, asset, (had + amount) as Balance);
    crate::storage::lemma_rows_with_no_zero(taken, to, asset, (had + amount) as Balance);
    assert forall|k: (AccountId, Seq<u8>)| #[trigger]
        view_of(given)[k] == moved(view_of(rows), from, to, asset, amount, short)->Ok_0[k] by {
        crate::storage::lemma_rows_with_reads(rows, from, asset, (held - amount) as Balance, k.0, k.1);
        crate::storage::lemma_rows_with_reads(taken, to, asset, (had + amount) as Balance, k.0, k.1);
    }
    assert(view_of(given) =~= moved(view_of(rows), from, to, asset, amount, short)->Ok_0);
    assert forall|other: Seq<u8>| #[trigger] asset_sum(given, other) == asset_sum(rows, other) by {
        crate::storage::lemma_rows_with_sum(rows, from, asset, (held - amount) as Balance, other);
        crate::storage::lemma_rows_with_sum(taken, to, asset, (had + amount) as Balance, other);
    }
}

/// Whether a ledger answered `r` and went from `before` to `after` as
/// `model` says: its maps on success, its error and no change otherwise.
pub open spec fn follows(
    model: Result<Accounts, DispatchError>,
    before: Accounts,
    after: Accounts,
    r: Result<(), DispatchError>,
) -> bool {
    match model {
        Ok(m) => r is Ok && after == m,
        Err(e) => r == Err::<(), DispatchError>(e) && after == before,
    }
}

/// A payment goes through exactly when the payer holds the amount and the
/// payee has room for it; the payer then holds that much less, and no
/// balance of another asset changes.
pub proof fn lemma_moved(
    m: Accounts,
    from: AccountId,
    to: AccountId,
    asset: Seq<u8>,
    amount: Balance,
    short: Error,
)
    ensures
        moved(m, from, to, asset, amount, short) is Ok <==> m[(from, asset)] >= amount && (from == to
            || m[(to, asset)] + amount <= Balance::MAX),
        m[(from, asset)] < amount ==> moved(m, from, to, asset, amount, short) == Err::<
            Accounts,
            DispatchError,
        >(DispatchError::Balances(short)),
        moved(m, from, to, asset, amount, short) matches Ok(after) ==> {
            &&& from != to ==> after[(from, asset)] == m[(from, asset)] - amount
            &&& from != to ==> after[(to, asset)] == m[(to, asset)] + amount
            &&& from == to ==> after[(from, asset)] == m[(from, asset)]
            &&& forall|who: AccountId, other: Seq<u8>|
                (who != from && who != to) || other != asset ==> #[trigger] after[(who, other)]
                    == m[(who, other)]
        },
{
}

/// Minting and then burning the same amount for the same account succeeds
/// and restores every balance.
pub proof fn lemma_mint_then_burn(
    m: Accounts,
    treasury: AccountId,
    who: AccountId,
    asset: Seq<u8>,
    amount: Balance,
)
    requires
        m.dom().contains((treasury, asset)),
        m.dom().contains((who, asset)),
        minted(m, None, treasury, who, asset, amount) is Ok,
    ensures
        burnt(minted(m, None, treasury, who, asset, amount)->Ok_0, None, treasury, who, asset, amount)
            == Ok::<Accounts, DispatchError>(m),
{
    let mid = minted(m, None, treasury, who, asset, amount)->Ok_0;
    let back = burnt(mid, None, treasury, who, asset, amount);
    assert(back is Ok);
    assert(back->Ok_0 =~= m);
}

/// Burning and then minting the same amount for the same account succeeds
/// and restores every balance.
pub proof fn lemma_burn_then_mint(
    m: Accounts,
    treasury: AccountId,
    who: AccountId,
    asset: Seq<u8>,
    amount: Balance,
)
    requires
        m.dom().contains((treasury, asset)),
        m.dom().contains((who, asset)),
        burnt(m, None, treasury, who, asset, amount) is Ok,
    ensures
        minted(burnt(m, None, treasury, who, asset, amount)->Ok_0, None, treasury, who, asset, amount)
            == Ok::<Accounts, DispatchError>(m),
{
    let mid = burnt(m, None, treasury, who, asset, amount)->Ok_0;
    let back = minted(mid, None, treasury, who, asset, amount);
    assert(back is Ok);
    assert(back->Ok_0 =~= m);
}

/// A burn or a transfer that would take more than the payer holds fails and
/// changes nothing; one that succeeds leaves the payer the exact difference.
pub proof fn lemma_no_negative_balance(
    m: Accounts,
    refused: Option<DispatchError>,
    treasury: AccountId,
    from: AccountId,
    to: AccountId,
    asset: Seq<u8>,
    amount: Balance,
)
    ensures
        m[(from, asset)] < amount ==> burnt(m, refused, treasury, from, asset, amount) is Err
            && transferred(m, refused, from, to, asset, amount) is Err,
        burnt(m, refused, treasury, from, asset, amount) matches Ok(after) ==> m[(from, asset)]
            >= amount && (from != treasury ==> after[(from, asset)] == m[(from, asset)] - amount),
        transferred(m, refused, from, to, asset, amount) matches Ok(after) ==> m[(from, asset)]
            >= amount && (from != to ==> after[(from, asset)] == m[(from, asset)] - amount),
{
}

/// The rows of `rows` as an exec caller receives them.
pub open spec fn listed(items: Seq<(AccountId, AssetId, Balance)>) -> Seq<Row> {
    Seq::new(items.len(), |i: int| Row { who: items[i].0, asset: items[i].1@, amount: items[i].2 })
}

/// What a ledger of balances offers to its consumers.
pub trait Currency {
    /// The registry that the ledger checks assets against.
    type Assets: AssetGetter;

    /// The oracle that the ledger values balances with.
    type Prices: PriceGetter;

    /// The amount that every account holds of every asset.
    spec fn balances(&self) -> Accounts;

    /// The non-zero balances, in a stable order.
    spec fn holdings(&self) -> Seq<Row>;

    /// The account that holds the unminted supply.
    spec fn treasury(&self) -> AccountId;

    /// The sum of all balances of `asset`, the treasury's included.
    spec fn issuance(&self, asset: Seq<u8>) -> nat;

    /// Moves `amount` of `asset` from the treasury to `who`.
    fn mint(&mut self, assets: &Self::Assets, who: &AccountId, asset: &AssetId, amount: Balance) -> (r:
        Result<(), DispatchError>)
        ensures
            follows(
                minted(
                    old(self).balances(),
                    refusal(assets, asset@),
                    old(self).treasury(),
                    *who,
                    asset@,
                    amount,
                ),
                old(self).balances(),
                final(self).balances(),
                r,
            ),
            r is Ok ==> final(self).holdings() == rows_moved(
                old(self).holdings(),
                old(self).treasury(),
                *who,
                asset@,
                amount,
            ),
            r is Err ==> final(self).holdings() == old(self).holdings(),
            final(self).treasury() == old(self).treasury(),
            forall|a: Seq<u8>| #[trigger] final(self).issuance(a) == old(self).issuance(a),
    ;

    /// Moves `amount` of `asset` from `who` to the treasury.
    fn burn(&mut self, assets: &Self::Assets, who: &AccountId, asset: &AssetId, amount: Balance) -> (r:
        Result<(), DispatchError>)
        ensures
            follows(
                burnt(
                    old(self).balances(),
                    refusal(assets, asset@),
                    old(self).treasury(),
                    *who,
                    asset@,
                    amount,
                ),
                old(self).balances(),
                final(self).balances(),
                r,
            ),
            r is Ok ==> final(self).holdings() == rows_moved(
                old(self).holdings(),
                *who,
                old(self).treasury(),
                asset@,
                amount,
            ),
            r is Err ==> final(self).holdings() == old(self).holdings(),
            final(self).treasury() == old(self).treasury(),
            forall|a: Seq<u8>| #[trigger] final(self).issuance(a) == old(self).issuance(a),
    ;

    /// Moves `amount` of `asset` from `from` to `to`.
    fn transfer(
        &mut self,
        assets: &Self::Assets,
        from: &AccountId,
        to: &AccountId,
        asset: &AssetId,
        amount: Balance,
    ) -> (r: Result<(), DispatchError>)
        ensures
            follows(
                transferred(
                    old(self).balances(),
                    refusal(assets, asset@),
                    *from,
                    *to,
                    asset@,
                    amount,
                ),
                old(self).balances(),
                final(self).balances(),
                r,
            ),
            r is Ok ==> final(self).holdings() == rows_moved(
                old(self).holdings(),
                *from,
                *to,
                asset@,
                amount,
            ),
            r is Err ==> final(self).holdings() == old(self).holdings(),
            final(self).treasury() == old(self).treasury(),
            forall|a: Seq<u8>| #[trigger] final(self).issuance(a) == old(self).issuance(a),
    ;

    /// What `who` holds of `asset`.
    fn balance(&self, who: &AccountId, asset: &AssetId) -> (r: Balance)
        ensures
            r == self.balances()[(*who, asset@)],
    ;

    /// What `who` holds, in the stable asset: the sum over the assets that have
    /// a price, held at the largest amount.
    fn total_in_stable(&self, prices: &Self::Prices, who: &AccountId) -> (r: Balance)
        ensures
            r == capped(worth_of_rows(prices.quotes(), prices.stable(), self.holdings(), *who)),
    ;

    /// Every non-zero balance, each once, in a stable order.
    fn iter_balances(&self) -> (items: Vec<(AccountId, AssetId, Balance)>)
        ensures
            listed(items@) == self.holdings(),
            distinct_keys(listed(items@)),
            no_zero(listed(items@)),
            self.balances() == view_of(listed(items@)),
    ;
}

} // verus!
