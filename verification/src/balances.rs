//! The ledger of balances: what every account holds of every asset, with a
//! treasury account that holds the supply not yet minted.

use vstd::prelude::*;
use crate::primitives::assets::{AssetGetter, AssetId, OnAssetCreate};
use crate::primitives::currency::{
    burnt, credit, debit, follows, listed, minted, moved, refusal, rows_credited, rows_debited,
    rows_moved, transferred, Accounts, Currency,
};
use crate::math::capped;
use crate::primitives::prices::{worth_of_rows, PriceGetter};
use crate::primitives::{
    ensure_root, ensure_signed, AccountId, Balance, Caller, DispatchError, InvalidTransaction,
    TransactionValidityError,
};
use crate::storage::{BalanceMap, Row};

verus! {

/// What the ledger is set up with.
#[derive(Clone, Copy, Debug, PartialEq, Eq, Structural)]
pub struct Config {
    /// The account that holds the unminted supply.
    pub treasury: AccountId,
    /// What the treasury receives of each newly created asset.
    pub initial_asset_issuance: Balance,
}

/// The balances that the ledger starts with.
pub struct GenesisConfig {
    /// The assets of which the treasury holds the initial issuance.
    pub treasury: Vec<AssetId>,
    /// What is minted for each account, asset by asset.
    pub balances: Vec<(AccountId, Vec<(AssetId, Balance)>)>,
}

impl Default for GenesisConfig {
    /// No balance.
    fn default() -> (g: Self)
        ensures
            g.treasury@.len() == 0,
            g.balances@.len() == 0,
    {
        GenesisConfig { treasury: Vec::new(), balances: Vec::new() }
    }
}

/// The balances after the treasury is given the initial issuance of the
/// first `k` of `assets`.
pub open spec fn prefunded(assets: Seq<AssetId>, k: int, treasury: AccountId, issuance: Balance) -> Accounts
    decreases k,
{
    if k <= 0 {
        Map::total(|key: (AccountId, Seq<u8>)| 0u128)
    } else {
        prefunded(assets, k - 1, treasury, issuance).insert((treasury, assets[k - 1]@), issuance)
    }
}

/// The balances after the first `k` of `grants` are minted for `who`, in
/// order; a mint that fails is left out.
pub open spec fn granted<A: AssetGetter>(
    m: Accounts,
    registry: &A,
    treasury: AccountId,
    who: AccountId,
    grants: Seq<(AssetId, Balance)>,
    k: int,
) -> Accounts
    decreases k,
{
    if k <= 0 {
        m
    } else {
        let before = granted(m, registry, treasury, who, grants, k - 1);
        match minted(
            before,
            refusal(registry, grants[k - 1].0@),
            treasury,
            who,
            grants[k - 1].0@,
            grants[k - 1].1,
        ) {
            Ok(after) => after,
            Err(_) => before,
        }
    }
}

/// The balances after the grants of the first `k` of `accounts` are minted.
pub open spec fn endowed<A: AssetGetter>(
    m: Accounts,
    registry: &A,
    treasury: AccountId,
    accounts: Seq<(AccountId, Vec<(AssetId, Balance)>)>,
    k: int,
) -> Accounts
    decreases k,
{
    if k <= 0 {
        m
    } else {
        granted(
            endowed(m, registry, treasury, accounts, k - 1),
            registry,
            treasury,
            accounts[k - 1].0,
            accounts[k - 1].1@,
            accounts[k - 1].1@.len() as int,
        )
    }
}

/// The rows after the treasury is given the initial issuance of the first
/// `k` of `assets`.
pub open spec fn prefunded_rows(assets: Seq<AssetId>, k: int, treasury: AccountId, issuance: Balance) -> Seq<
    Row,
>
    decreases k,
{
    if k <= 0 {
        Seq::empty()
    } else {
        crate::storage::rows_with(
            prefunded_rows(assets, k - 1, treasury, issuance),
            treasury,
            assets[k - 1]@,
            issuance,
        )
    }
}

/// The rows after the first `k` of `grants` are minted for `who`, in order;
/// a mint that fails is left out.
pub open spec fn granted_rows<A: AssetGetter>(
    rows: Seq<Row>,
    registry: &A,
    treasury: AccountId,
    who: AccountId,
    grants: Seq<(AssetId, Balance)>,
    k: int,
) -> Seq<Row>
    decreases k,
{
    if k <= 0 {
        rows
    } else {
        let before = granted_rows(rows, registry, treasury, who, grants, k - 1);
        if minted(
            crate::storage::view_of(before),
            refusal(registry, grants[k - 1].0@),
            treasury,
            who,
            grants[k - 1].0@,
            grants[k - 1].1,
        ) is Ok {
            rows_moved(before, treasury, who, grants[k - 1].0@, grants[k - 1].1)
        } else {
            before
        }
    }
}

/// The rows after the grants of the first `k` of `accounts` are minted.
pub open spec fn endowed_rows<A: AssetGetter>(
    rows: Seq<Row>,
    registry: &A,
    treasury: AccountId,
    accounts: Seq<(AccountId, Vec<(AssetId, Balance)>)>,
    k: int,
) -> Seq<Row>
    decreases k,
{
    if k <= 0 {
        rows
    } else {
        granted_rows(
            endowed_rows(rows, registry, treasury, accounts, k - 1),
            registry,
            treasury,
            accounts[k - 1].0,
            accounts[k - 1].1@,
            accounts[k - 1].1@.len() as int,
        )
    }
}

impl GenesisConfig {
    /// The ledger that starts with these balances: the treasury is given the
    /// initial issuance of each of its assets, then every grant is minted out
    /// of it.
    pub fn build(&self, config: Config, registry: &crate::assets::Pallet) -> (p: Pallet)
        ensures
            p.config() == config,
            p.rows() == endowed_rows(
                prefunded_rows(
                    self.treasury@,
                    self.treasury@.len() as int,
                    config.treasury,
                    config.initial_asset_issuance,
                ),
                registry,
                config.treasury,
                self.balances@,
                self.balances@.len() as int,
            ),
            p@ == endowed(
                prefunded(
                    self.treasury@,
                    self.treasury@.len() as int,
                    config.treasury,
                    config.initial_asset_issuance,
                ),
                registry,
                config.treasury,
                self.balances@,
                self.balances@.len() as int,
            ),
    {
        let mut p = Pallet::new(config);
        assert(p@ =~= prefunded(self.treasury@, 0, config.treasury, config.initial_asset_issuance)) by {
            assert forall|k: (AccountId, Seq<u8>)| #[trigger] p@[k] == 0 by {
                crate::storage::lemma_amount_absent(p.rows(), k.0, k.1);
            }
        }
        let mut i: usize = 0;
        while i < self.treasury.len()
            invariant
                i <= self.treasury.len(),
                p.config() == config,
                p@ == prefunded(
                    self.treasury@,
                    i as int,
                    config.treasury,
                    config.initial_asset_issuance,
                ),
                p.rows() == prefunded_rows(
                    self.treasury@,
                    i as int,
                    config.treasury,
                    config.initial_asset_issuance,
                ),
            decreases self.treasury.len() - i,
        {
            p.accounts.insert(config.treasury, &self.treasury[i], config.initial_asset_issuance);
            i += 1;
        }
        let ghost start = p@;
        let ghost start_rows = p.rows();
        let mut j: usize = 0;
        while j < self.balances.len()
            invariant
                j <= self.balances.len(),
                p.config() == config,
                p@ == endowed(start, registry, config.treasury, self.balances@, j as int),
                p.rows() == endowed_rows(
                    start_rows,
                    registry,
                    config.treasury,
                    self.balances@,
                    j as int,
                ),
            decreases self.balances.len() - j,
        {
            let who = self.balances[j].0;
            let grants = &self.balances[j].1;
            let ghost before = p@;
            let ghost before_rows = p.rows();
            let mut k: usize = 0;
            while k < grants.len()
                invariant
                    k <= grants.len(),
                    p.config() == config,
                    p@ == granted(before, registry, config.treasury, who, grants@, k as int),
                    p.rows() == granted_rows(
                        before_rows,
                        registry,
                        config.treasury,
                        who,
                        grants@,
                        k as int,
                    ),
                decreases grants.len() - k,
            {
                proof {
                    p.lemma_view();
                }
                let _ = p.do_mint(registry, who, &grants[k].0, grants[k].1);
                k += 1;
            }
            j += 1;
        }
        p
    }
}

/// What the ledger reports.
#[derive(Debug, PartialEq, Eq)]
pub enum Event {
    TransactionPayment { who: AccountId, fee: Balance, tip: Balance },
    Minted { who: AccountId, asset: AssetId, amount: Balance },
    Burnt { who: AccountId, asset: AssetId, amount: Balance },
    Transfer { from: AccountId, to: AccountId, asset: AssetId, amount: Balance },
}

/// Why the ledger refuses.
#[derive(Clone, Copy, Debug, PartialEq, Eq, Structural)]
pub enum Error {
    /// The account holds less than the amount to take.
    InsufficientFunds,
    /// The balance would pass the largest amount.
    Overflow,
    /// The treasury holds less than the amount to mint.
    InsufficientTreasury,
}

/// The ledger.
pub struct Pallet {
    config: Config,
    accounts: BalanceMap,
}

impl View for Pallet {
    type V = Accounts;

    closed spec fn view(&self) -> Accounts {
        self.accounts@
    }
}

impl Pallet {
    /// The configuration.
    pub closed spec fn config(&self) -> Config {
        self.config
    }

    /// The non-zero balances in the order in which they came to be.
    pub closed spec fn rows(&self) -> Seq<Row> {
        self.accounts.rows()
    }

    /// The sum of all balances of `asset`, the treasury's included.
    pub closed spec fn total(&self, asset: Seq<u8>) -> nat {
        self.accounts.total(asset)
    }

    /// Every key has an amount, and the non-zero ones are the rows.
    pub proof fn lemma_view(&self)
        ensures
            self@ == crate::storage::view_of(self.rows()),
            forall|k: (AccountId, Seq<u8>)| self@.dom().contains(k),
            forall|who: AccountId, asset: Seq<u8>|
                #[trigger] self@[(who, asset)] == crate::storage::amount_in(self.rows(), who, asset),
            self.total_is_sum(),
    {
    }

    /// The total of an asset is the sum of the rows of that asset.
    pub open spec fn total_is_sum(&self) -> bool {
        forall|asset: Seq<u8>| #[trigger]
            self.total(asset) == crate::storage::asset_sum(self.rows(), asset)
    }

    /// A ledger without balances.
    pub fn new(config: Config) -> (p: Self)
        ensures
            p.config() == config,
            p.rows() == Seq::<Row>::empty(),
            forall|who: AccountId, asset: Seq<u8>| #[trigger] p@[(who, asset)] == 0,
            forall|asset: Seq<u8>| #[trigger] p.total(asset) == 0,
    {
        Pallet { config, accounts: BalanceMap::new() }
    }

    /// Gives `amount` of `asset` to `who`.
    fn add(&mut self, who: AccountId, asset: &AssetId, amount: Balance) -> (r: Result<(), Error>)
        ensures
            final(self).config() == old(self).config(),
            r is Ok ==> final(self).rows() == rows_credited(old(self).rows(), who, asset@, amount),
            match credit(old(self)@, who, asset@, amount) {
                Some(m) => r is Ok && final(self)@ == m && forall|a: Seq<u8>| #[trigger]
                    final(self).total(a) == old(self).total(a) + if a == asset@ {
                        amount as int
                    } else {
                        0
                    },
                None => r == Err::<(), Error>(Error::Overflow) && *final(self) == *old(self),
            },
    {
        let held = self.accounts.get(who, asset);
        match held.checked_add(amount) {
            Some(sum) => {
                self.accounts.insert(who, asset, sum);
                Ok(())
            },
            None => Err(Error::Overflow),
        }
    }

    /// Takes `amount` of `asset` from `who`.
    fn sub(&mut self, who: AccountId, asset: &AssetId, amount: Balance) -> (r: Result<(), Error>)
        ensures
            final(self).config() == old(self).config(),
            r is Ok ==> final(self).rows() == rows_debited(old(self).rows(), who, asset@, amount),
            match debit(old(self)@, who, asset@, amount) {
                Some(m) => r is Ok && final(self)@ == m && forall|a: Seq<u8>| #[trigger]
                    final(self).total(a) == old(self).total(a) - if a == asset@ {
                        amount as int
                    } else {
                        0
                    },
                None => r == Err::<(), Error>(Error::InsufficientFunds) && *final(self) == *old(
                    self,
                ),
            },
    {
        let held = self.accounts.get(who, asset);
        match held.checked_sub(amount) {
            Some(rest) => {
                self.accounts.insert(who, asset, rest);
                Ok(())
            },
            None => Err(Error::InsufficientFunds),
        }
    }

    /// Gives `amount` of `asset` to the treasury.
    fn treasury_add(&mut self, asset: &AssetId, amount: Balance) -> (r: Result<(), Error>)
        ensures
            final(self).config() == old(self).config(),
            r is Ok ==> final(self).rows() == rows_credited(
                old(self).rows(),
                old(self).config().treasury,
                asset@,
                amount,
            ),
            match credit(old(self)@, old(self).config().treasury, asset@, amount) {
                Some(m) => r is Ok && final(self)@ == m && forall|a: Seq<u8>| #[trigger]
                    final(self).total(a) == old(self).total(a) + if a == asset@ {
                        amount as int
                    } else {
                        0
                    },
                None => r == Err::<(), Error>(Error::Overflow) && *final(self) == *old(self),
            },
    {
        let treasury = self.config.treasury;
        self.add(treasury, asset, amount)
    }

    /// Takes `amount` of `asset` from the treasury.
    fn treasury_sub(&mut self, asset: &AssetId, amount: Balance) -> (r: Result<(), Error>)
        ensures
            final(self).config() == old(self).config(),
            r is Ok ==> final(self).rows() == rows_debited(
                old(self).rows(),
                old(self).config().treasury,
                asset@,
                amount,
            ),
            match debit(old(self)@, old(self).config().treasury, asset@, amount) {
                Some(m) => r is Ok && final(self)@ == m && forall|a: Seq<u8>| #[trigger]
                    final(self).total(a) == old(self).total(a) - if a == asset@ {
                        amount as int
                    } else {
                        0
                    },
                None => r == Err::<(), Error>(Error::InsufficientTreasury) && *final(self) == *old(
                    self,
                ),
            },
    {
        let treasury = self.config.treasury;
        match self.sub(treasury, asset, amount) {
            Ok(()) => Ok(()),
            Err(_) => Err(Error::InsufficientTreasury),
        }
    }

    /// Whether `to` has room for `amount` of `asset` once `from` has paid it.
    fn has_room(&self, from: AccountId, to: AccountId, asset: &AssetId, amount: Balance) -> (r: bool)
        requires
            self@[(from, asset@)] >= amount,
        ensures
            r == credit(debit(self@, from, asset@, amount)->Some_0, to, asset@, amount).is_some(),
    {
        if from == to {
            true
        } else {
            self.accounts.get(to, asset) <= Balance::MAX - amount
        }
    }

    /// Takes `amount` of `asset` from `from` and gives it to `to`, both or
    /// neither; `short` is the error of a `from` that holds too little.
    fn settle(&mut self, from: AccountId, to: AccountId, asset: &AssetId, amount: Balance, short: Error) -> (r:
        Result<(), DispatchError>)
        ensures
            final(self).config() == old(self).config(),
            follows(moved(old(self)@, from, to, asset@, amount, short), old(self)@, final(self)@, r),
            r is Ok ==> final(self).rows() == rows_moved(old(self).rows(), from, to, asset@, amount),
            r is Err ==> *final(self) == *old(self),
            forall|a: Seq<u8>| #[trigger] final(self).total(a) == old(self).total(a),
    {
        if self.accounts.get(from, asset) < amount {
            return Err(DispatchError::Balances(short));
        }
        if !self.has_room(from, to, asset, amount) {
            return Err(DispatchError::Balances(Error::Overflow));
        }
        let taken = self.sub(from, asset, amount);
        let given = self.add(to, asset, amount);
        assert(taken is Ok && given is Ok);
        Ok(())
    }

    /// What a burn of `amount` of `asset` by `who` would be refused for, if
    /// it would; nothing changes.
    pub(crate) fn burn_refusal(
        &self,
        assets: &crate::assets::Pallet,
        who: AccountId,
        asset: &AssetId,
        amount: Balance,
    ) -> (r: Result<(), DispatchError>)
        ensures
            match burnt(
                self@,
                refusal(assets, asset@),
                self.config().treasury,
                who,
                asset@,
                amount,
            ) {
                Ok(_) => r is Ok,
                Err(e) => r == Err::<(), DispatchError>(e),
            },
    {
        if let Err(e) = assets.check(asset) {
            return Err(e);
        }
        if self.accounts.get(who, asset) < amount {
            return Err(DispatchError::Balances(Error::InsufficientFunds));
        }
        let treasury = self.config.treasury;
        if !self.has_room(who, treasury, asset, amount) {
            return Err(DispatchError::Balances(Error::Overflow));
        }
        Ok(())
    }

    /// Mints for any caller: the registry is asked, then the treasury pays.
    pub(crate) fn do_mint(&mut self, assets: &crate::assets::Pallet, who: AccountId, asset: &AssetId, amount: Balance) -> (r:
        Result<(), DispatchError>)
        ensures
            final(self).config() == old(self).config(),
            forall|a: Seq<u8>| #[trigger] final(self).total(a) == old(self).total(a),
            follows(
                minted(old(self)@, refusal(assets, asset@), old(self).config().treasury, who, asset@, amount),
                old(self)@,
                final(self)@,
                r,
            ),
            r is Ok ==> final(self).rows() == rows_moved(
                old(self).rows(),
                old(self).config().treasury,
                who,
                asset@,
                amount,
            ),
            r is Err ==> *final(self) == *old(self),
    {
        if let Err(e) = assets.check(asset) {
            return Err(e);
        }
        let treasury = self.config.treasury;
        self.settle(treasury, who, asset, amount, Error::InsufficientTreasury)
    }

    /// Burns for any caller: the registry is asked, then the treasury is paid.
    pub(crate) fn do_burn(&mut self, assets: &crate::assets::Pallet, who: AccountId, asset: &AssetId, amount: Balance) -> (r:
        Result<(), DispatchError>)
        ensures
            final(self).config() == old(self).config(),
            forall|a: Seq<u8>| #[trigger] final(self).total(a) == old(self).total(a),
            follows(
                burnt(old(self)@, refusal(assets, asset@), old(self).config().treasury, who, asset@, amount),
                old(self)@,
                final(self)@,
                r,
            ),
            r is Ok ==> final(self).rows() == rows_moved(
                old(self).rows(),
                who,
                old(self).config().treasury,
                asset@,
                amount,
            ),
            r is Err ==> *final(self) == *old(self),
    {
        if let Err(e) = assets.check(asset) {
            return Err(e);
        }
        let treasury = self.config.treasury;
        self.settle(who, treasury, asset, amount, Error::InsufficientFunds)
    }

    /// Transfers for any caller: the registry is asked, then `from` pays `to`.
    pub(crate) fn do_transfer(
        &mut self,
        assets: &crate::assets::Pallet,
        from: AccountId,
        to: AccountId,
        asset: &AssetId,
        amount: Balance,
    ) -> (r: Result<(), DispatchError>)
        ensures
            final(self).config() == old(self).config(),
            forall|a: Seq<u8>| #[trigger] final(self).total(a) == old(self).total(a),
            follows(
                transferred(old(self)@, refusal(assets, asset@), from, to, asset@, amount),
                old(self)@,
                final(self)@,
                r,
            ),
            r is Ok ==> final(self).rows() == rows_moved(old(self).rows(), from, to, asset@, amount),
            r is Err ==> *final(self) == *old(self),
    {
        if let Err(e) = assets.check(asset) {
            return Err(e);
        }
        self.settle(from, to, asset, amount, Error::InsufficientFunds)
    }

    /// Moves `amount` of `asset` from the treasury to `who`. Only the
    /// privileged caller may do so.
    pub fn mint(
        &mut self,
        assets: &crate::assets::Pallet,
        origin: Caller,
        who: AccountId,
        asset: AssetId,
        amount: Balance,
    ) -> (r: Result<Event, DispatchError>)
        ensures
            final(self).config() == old(self).config(),
            forall|a: Seq<u8>| #[trigger] final(self).total(a) == old(self).total(a),
            r is Ok ==> final(self).rows() == rows_moved(
                old(self).rows(),
                old(self).config().treasury,
                who,
                asset@,
                amount,
            ),
            r is Err ==> *final(self) == *old(self),
            match for_root(
                origin,
                minted(old(self)@, refusal(assets, asset@), old(self).config().treasury, who, asset@, amount),
            ) {
                Ok(m) => final(self)@ == m && (r matches Ok(Event::Minted { who: w, asset: a, amount: x })
                    && w == who && a@ == asset@ && x == amount),
                Err(e) => final(self)@ == old(self)@ && r == Err::<Event, DispatchError>(e),
            },
    {
        if let Err(e) = ensure_root(origin) {
            return Err(e);
        }
        match self.do_mint(assets, who, &asset, amount) {
            Ok(()) => Ok(Event::Minted { who, asset, amount }),
            Err(e) => Err(e),
        }
    }

    /// Moves `amount` of `asset` from `who` to the treasury. Only the
    /// privileged caller may do so.
    pub fn burn(
        &mut self,
        assets: &crate::assets::Pallet,
        origin: Caller,
        who: AccountId,
        asset: AssetId,
        amount: Balance,
    ) -> (r: Result<Event, DispatchError>)
        ensures
            final(self).config() == old(self).config(),
            forall|a: Seq<u8>| #[trigger] final(self).total(a) == old(self).total(a),
            r is Ok ==> final(self).rows() == rows_moved(
                old(self).rows(),
                who,
                old(self).config().treasury,
                asset@,
                amount,
            ),
            r is Err ==> *final(self) == *old(self),
            match for_root(
                origin,
                burnt(old(self)@, refusal(assets, asset@), old(self).config().treasury, who, asset@, amount),
            ) {
                Ok(m) => final(self)@ == m && (r matches Ok(Event::Burnt { who: w, asset: a, amount: x })
                    && w == who && a@ == asset@ && x == amount),
                Err(e) => final(self)@ == old(self)@ && r == Err::<Event, DispatchError>(e),
            },
    {
        if let Err(e) = ensure_root(origin) {
            return Err(e);
        }
        match self.do_burn(assets, who, &asset, amount) {
            Ok(()) => Ok(Event::Burnt { who, asset, amount }),
            Err(e) => Err(e),
        }
    }

    /// Moves `amount` of `asset` from the signer to `to`.
    pub fn transfer(
        &mut self,
        assets: &crate::assets::Pallet,
        origin: Caller,
        to: AccountId,
        asset: AssetId,
        amount: Balance,
    ) -> (r: Result<Event, DispatchError>)
        ensures
            final(self).config() == old(self).config(),
            forall|a: Seq<u8>| #[trigger] final(self).total(a) == old(self).total(a),
            r is Err ==> *final(self) == *old(self),
            match origin {
                Caller::Signed(from) => match transferred(
                    old(self)@,
                    refusal(assets, asset@),
                    from,
                    to,
                    asset@,
                    amount,
                ) {
                    Ok(m) => final(self)@ == m && final(self).rows() == rows_moved(
                        old(self).rows(),
                        from,
                        to,
                        asset@,
                        amount,
                    ) && (r matches Ok(Event::Transfer { from: f, to: t, asset: a, amount: x }) && f
                        == from && t == to && a@ == asset@ && x == amount),
                    Err(e) => final(self)@ == old(self)@ && r == Err::<Event, DispatchError>(e),
                },
                _ => final(self)@ == old(self)@ && r == Err::<Event, DispatchError>(
                    DispatchError::BadOrigin,
                ),
            },
    {
        let from = match ensure_signed(origin) {
            Ok(from) => from,
            Err(e) => {
                return Err(e);
            },
        };
        match self.do_transfer(assets, from, to, &asset, amount) {
            Ok(()) => Ok(Event::Transfer { from, to, asset, amount }),
            Err(e) => Err(e),
        }
    }

    /// Takes the fee from what `who` holds of the main asset. A zero fee
    /// takes nothing; a payer that holds less than the fee cannot pay.
    pub fn withdraw_fee(
        &mut self,
        assets: &crate::assets::Pallet,
        who: &AccountId,
        fee: Balance,
        tip: Balance,
    ) -> (r: Result<Option<Balance>, TransactionValidityError>)
        ensures
            final(self).config() == old(self).config(),
            r matches Ok(Some(_)) ==> final(self).rows() == rows_debited(
                old(self).rows(),
                *who,
                assets.main_asset(),
                fee,
            ),
            !(r matches Ok(Some(_))) ==> *final(self) == *old(self),
            fee == 0 ==> r == Ok::<Option<Balance>, TransactionValidityError>(None) && final(self)@
                == old(self)@ && forall|a: Seq<u8>| #[trigger]
                final(self).total(a) == old(self).total(a),
            fee != 0 ==> match debit(old(self)@, *who, assets.main_asset(), fee) {
                Some(m) => r == Ok::<Option<Balance>, TransactionValidityError>(Some(fee))
                    && final(self)@ == m && forall|a: Seq<u8>| #[trigger]
                    final(self).total(a) == old(self).total(a) - if a == assets.main_asset() {
                        fee as int
                    } else {
                        0
                    },
                None => r == Err::<Option<Balance>, TransactionValidityError>(
                    TransactionValidityError::Invalid(InvalidTransaction::Payment),
                ) && final(self)@ == old(self)@ && forall|a: Seq<u8>| #[trigger]
                    final(self).total(a) == old(self).total(a),
            },
    {
        if fee == 0 {
            return Ok(None);
        }
        let main = assets.get_main();
        match self.sub(*who, &main, fee) {
            Ok(()) => Ok(Some(fee)),
            Err(_) => Err(TransactionValidityError::Invalid(InvalidTransaction::Payment)),
        }
    }

    /// Settles a fee that was withdrawn: of the amount `paid`, the treasury
    /// keeps `corrected_fee` and the payer gets the rest back, both or
    /// neither. Nothing moves where nothing was withdrawn.
    pub fn correct_and_deposit_fee(
        &mut self,
        assets: &crate::assets::Pallet,
        who: &AccountId,
        corrected_fee: Balance,
        tip: Balance,
        already_withdrawn: Option<Balance>,
    ) -> (r: Result<Event, TransactionValidityError>)
        ensures
            final(self).config() == old(self).config(),
            r is Err || already_withdrawn is None ==> *final(self) == *old(self),
            r is Ok && already_withdrawn is Some ==> final(self).rows() == rows_credited(
                rows_credited(
                    old(self).rows(),
                    old(self).config().treasury,
                    assets.main_asset(),
                    corrected_fee,
                ),
                *who,
                assets.main_asset(),
                (already_withdrawn->Some_0 - corrected_fee) as Balance,
            ),
            match fee_settled(
                old(self)@,
                old(self).config().treasury,
                *who,
                assets.main_asset(),
                corrected_fee,
                already_withdrawn,
            ) {
                Some(m) => final(self)@ == m && r == Ok::<Event, TransactionValidityError>(
                    Event::TransactionPayment { who: *who, fee: corrected_fee, tip },
                ) && forall|a: Seq<u8>| #[trigger]
                    final(self).total(a) == old(self).total(a) + if a == assets.main_asset()
                        && already_withdrawn is Some {
                        already_withdrawn->Some_0 as int
                    } else {
                        0
                    },
                None => final(self)@ == old(self)@ && r == Err::<Event, TransactionValidityError>(
                    TransactionValidityError::Invalid(InvalidTransaction::Payment),
                ) && forall|a: Seq<u8>| #[trigger] final(self).total(a) == old(self).total(a),
            },
    {
        if let Some(paid) = already_withdrawn {
            if corrected_fee > paid {
                return Err(TransactionValidityError::Invalid(InvalidTransaction::Payment));
            }
            let refund = paid - corrected_fee;
            let main = assets.get_main();
            let treasury = self.config.treasury;
            let kept = self.accounts.get(treasury, &main);
            if kept > Balance::MAX - corrected_fee {
                return Err(TransactionValidityError::Invalid(InvalidTransaction::Payment));
            }
            let held = if *who == treasury {
                kept + corrected_fee
            } else {
                self.accounts.get(*who, &main)
            };
            if held > Balance::MAX - refund {
                return Err(TransactionValidityError::Invalid(InvalidTransaction::Payment));
            }
            let to_treasury = self.treasury_add(&main, corrected_fee);
            let to_payer = self.add(*who, &main, refund);
            assert(to_treasury is Ok && to_payer is Ok);
        }
        Ok(Event::TransactionPayment { who: *who, fee: corrected_fee, tip })
    }
}

/// What only the privileged caller obtains.
pub open spec fn for_root(origin: Caller, model: Result<Accounts, DispatchError>) -> Result<
    Accounts,
    DispatchError,
> {
    if origin == Caller::Root {
        model
    } else {
        Err(DispatchError::BadOrigin)
    }
}

/// The balances after a withdrawn fee is settled; nothing where the
/// corrected fee exceeds what was paid or a balance would pass the largest
/// amount.
pub open spec fn fee_settled(
    m: Accounts,
    treasury: AccountId,
    who: AccountId,
    main: Seq<u8>,
    corrected_fee: Balance,
    already_withdrawn: Option<Balance>,
) -> Option<Accounts> {
    match already_withdrawn {
        None => Some(m),
        Some(paid) => if corrected_fee > paid {
            None
        } else {
            match credit(m, treasury, main, corrected_fee) {
                None => None,
                Some(kept) => credit(kept, who, main, (paid - corrected_fee) as Balance),
            }
        },
    }
}

impl Currency for Pallet {
    type Assets = crate::assets::Pallet;

    type Prices = crate::oracle::Pallet;

    open spec fn balances(&self) -> Accounts {
        self@
    }

    open spec fn holdings(&self) -> Seq<Row> {
        self.rows()
    }

    open spec fn treasury(&self) -> AccountId {
        self.config().treasury
    }

    open spec fn issuance(&self, asset: Seq<u8>) -> nat {
        self.total(asset)
    }

    fn mint(&mut self, assets: &crate::assets::Pallet, who: &AccountId, asset: &AssetId, amount: Balance) -> (r:
        Result<(), DispatchError>) {
        self.do_mint(assets, *who, asset, amount)
    }

    fn burn(&mut self, assets: &crate::assets::Pallet, who: &AccountId, asset: &AssetId, amount: Balance) -> (r:
        Result<(), DispatchError>) {
        self.do_burn(assets, *who, asset, amount)
    }

    fn transfer(
        &mut self,
        assets: &crate::assets::Pallet,
        from: &AccountId,
        to: &AccountId,
        asset: &AssetId,
        amount: Balance,
    ) -> (r: Result<(), DispatchError>) {
        self.do_transfer(assets, *from, *to, asset, amount)
    }

    fn balance(&self, who: &AccountId, asset: &AssetId) -> (r: Balance) {
        self.accounts.get(*who, asset)
    }

    fn total_in_stable(&self, prices: &crate::oracle::Pallet, who: &AccountId) -> (r: Balance) {
        let mut acc: Balance = 0;
        let mut i: usize = 0;
        while i < self.accounts.len()
            invariant
                i <= self.accounts.rows().len(),
                acc == capped(
                    worth_of_rows(
                        prices.quotes(),
                        prices.stable(),
                        self.accounts.rows().take(i as int),
                        *who,
                    ),
                ),
            decreases self.accounts.rows().len() - i,
        {
            let e = self.accounts.entry(i);
            proof {
                assert(self.accounts.rows().take(i + 1).drop_last() == self.accounts.rows().take(
                    i as int,
                ));
            }
            if e.who == *who {
                if let Ok(v) = prices.to_stable_amount(&e.asset, e.amount) {
                    acc = acc.saturating_add(v);
                }
            }
            i += 1;
        }
        assert(self.accounts.rows().take(i as int) == self.accounts.rows());
        acc
    }

    fn iter_balances(&self) -> (items: Vec<(AccountId, AssetId, Balance)>) {
        let mut items: Vec<(AccountId, AssetId, Balance)> = Vec::new();
        let mut i: usize = 0;
        while i < self.accounts.len()
            invariant
                i <= self.accounts.rows().len(),
                items@.len() == i,
                forall|j: int|
                    0 <= j < i ==> (#[trigger] items@[j]).0 == self.accounts.rows()[j].who && items@[j].1@
                        == self.accounts.rows()[j].asset && items@[j].2
                        == self.accounts.rows()[j].amount,
            decreases self.accounts.rows().len() - i,
        {
            let e = self.accounts.entry(i);
            items.push((e.who, e.asset.clone(), e.amount));
            i += 1;
        }
        assert(listed(items@) =~= self.holdings());
        proof {
            use_type_invariant(&self.accounts);
        }
        items
    }
}

impl OnAssetCreate for Pallet {
    /// The asset is accepted, and the treasury's balance of it becomes the
    /// initial issuance.
    open spec fn notified(&self, after: &Self, asset: Seq<u8>, accepted: bool) -> bool {
        &&& accepted
        &&& after.config() == self.config()
        &&& after.rows() == crate::storage::rows_with(
            self.rows(),
            self.config().treasury,
            asset,
            self.config().initial_asset_issuance,
        )
        &&& after@ == self@.insert(
            (self.config().treasury, asset),
            self.config().initial_asset_issuance,
        )
    }

    /// The treasury's balance of the new asset becomes the initial issuance:
    /// this is where the issuance of an asset comes into being.
    fn on_asset_create(&mut self, asset: &AssetId) -> (r: Option<()>)
        ensures
            r is Some,
            final(self).config() == old(self).config(),
            final(self)@ == old(self)@.insert(
                (old(self).config().treasury, asset@),
                old(self).config().initial_asset_issuance,
            ),
            final(self).rows() == crate::storage::rows_with(
                old(self).rows(),
                old(self).config().treasury,
                asset@,
                old(self).config().initial_asset_issuance,
            ),
            forall|a: Seq<u8>| #[trigger]
                final(self).total(a) == if a == asset@ {
                    old(self).total(a) - old(self)@[(old(self).config().treasury, asset@)] + old(
                        self,
                    ).config().initial_asset_issuance
                } else {
                    old(self).total(a) as int
                },
    {
        let treasury = self.config.treasury;
        let balance = self.config.initial_asset_issuance;
        self.accounts.insert(treasury, asset, balance);
        Some(())
    }
}

} // verus!
