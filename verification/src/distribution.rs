//! Deposits and the redistribution of the reward pool among depositors.

use vstd::prelude::*;

pub mod plan;
pub mod worth;

use crate::balances::Error as LedgerError;
use crate::distribution::plan::{
    distributed, find, lemma_touched, lemma_unmet, memo_assets, met, paid_out, plan, residue,
    residues, share_at, shares, slot_for, touched, weight_sum, with_asset, Cycle, Memo, Payout,
};
use crate::math::{capped, mul_div};
use crate::primitives::prices::{worth_of_rows, worth_of_slots, PriceGetter};
use crate::primitives::assets::{AssetGetter, AssetId};
use crate::primitives::currency::{burnt, minted, refusal, transferred, Accounts, Currency};
use crate::primitives::assets::encoded;
use crate::primitives::{
    ensure_none, ensure_signed, AccountId, Balance, BlockNumber, Caller,
    DispatchError, InvalidTransaction, TransactionValidityError, UnknownTransaction,
};
use vstd::bytes::spec_u64_to_le_bytes;
use vstd::string::StringSliceAdditionalSpecFns;
use crate::primitives::currency::{rows_credited, rows_moved};
use crate::storage::{rows_with, slots_with, AssetMap, BalanceMap, Row, Slot};

verus! {

/// How the cycle is run.
#[derive(Clone, Copy, Debug, PartialEq, Eq, Structural)]
pub enum Strategy {
    /// Inline, as part of the state transition of every replica: the
    /// payments apply at once.
    Synchronous,
    /// By a background task of one node, which submits each payment as a
    /// request of its own.
    Asynchronous,
}

/// What the engine is set up with.
#[derive(Clone, Copy, Debug, PartialEq, Eq, Structural)]
pub struct Config {
    /// The distribution account, which holds the reward pool.
    pub module_id: AccountId,
    /// The treasury account, which receives what a cycle leaves over.
    pub treasury: AccountId,
    /// How the cycle is run.
    pub strategy: Strategy,
}

/// What the engine reports.
#[derive(Debug, PartialEq, Eq)]
pub enum Event {
    NewDeposit { who: AccountId, asset: AssetId, amount: Balance, total: Balance },
    Withdraw { who: AccountId, asset: AssetId, amount: Balance },
    Issued { asset: AssetId, amount: Balance },
    Redistributed { who: AccountId, asset: AssetId, amount: Balance },
}

/// Why the engine refuses.
#[derive(Clone, Copy, Debug, PartialEq, Eq, Structural)]
pub enum Error {
    /// The account has nothing deposited of the asset.
    NoDeposit,
    /// The request does not fit the cycle it names.
    BlockValidation,
}

/// The ledger and the engine together, as the contracts see them.
pub struct State {
    /// What every account holds in circulation.
    pub accounts: Accounts,
    /// What every account has deposited.
    pub deposits: Accounts,
    /// What is deposited of every asset, over all accounts.
    pub totals: Map<Seq<u8>, Balance>,
}

/// The amount under `asset` in `totals`; zero where there is none.
pub open spec fn total_at(totals: Map<Seq<u8>, Balance>, asset: Seq<u8>) -> Balance {
    if totals.contains_key(asset) {
        totals[asset]
    } else {
        0
    }
}

/// A deposit: the signer burns `amount` of `asset` and has it added to the
/// deposit and to the total of the asset. What the burn refuses comes first;
/// a total that would pass the largest amount is refused after that.
pub open spec fn deposited(
    s: State,
    refused: Option<DispatchError>,
    treasury: AccountId,
    origin: Caller,
    asset: Seq<u8>,
    amount: Balance,
) -> Result<State, DispatchError> {
    match origin {
        Caller::Signed(who) => match burnt(s.accounts, refused, treasury, who, asset, amount) {
            Err(e) => Err(e),
            Ok(accounts) => if s.totals[asset] + amount > Balance::MAX {
                Err(DispatchError::Balances(LedgerError::Overflow))
            } else {
                Ok(
                    State {
                        accounts,
                        deposits: s.deposits.insert(
                            (who, asset),
                            (s.deposits[(who, asset)] + amount) as Balance,
                        ),
                        totals: s.totals.insert(asset, (s.totals[asset] + amount) as Balance),
                    },
                )
            },
        },
        _ => Err(DispatchError::BadOrigin),
    }
}

/// A withdrawal: the signer's whole deposit of `asset` is minted back.
pub open spec fn withdrawn(
    s: State,
    refused: Option<DispatchError>,
    treasury: AccountId,
    origin: Caller,
    asset: Seq<u8>,
) -> Result<State, DispatchError> {
    match origin {
        Caller::Signed(who) => if s.deposits[(who, asset)] == 0 {
            Err(DispatchError::Distribution(Error::NoDeposit))
        } else {
            match minted(s.accounts, refused, treasury, who, asset, s.deposits[(who, asset)]) {
                Err(e) => Err(e),
                Ok(accounts) => Ok(
                    State {
                        accounts,
                        deposits: s.deposits.insert((who, asset), 0),
                        totals: s.totals.insert(
                            asset,
                            (s.totals[asset] - s.deposits[(who, asset)]) as Balance,
                        ),
                    },
                ),
            }
        },
        _ => Err(DispatchError::BadOrigin),
    }
}

/// Every account and every asset has an amount in each map of `s`.
pub open spec fn whole(s: State) -> bool {
    &&& forall|k: (AccountId, Seq<u8>)| #[trigger] s.accounts.dom().contains(k)
    &&& forall|k: (AccountId, Seq<u8>)| #[trigger] s.deposits.dom().contains(k)
    &&& forall|a: Seq<u8>| #[trigger] s.totals.dom().contains(a)
}

/// A first deposit of an asset followed by its withdrawal succeeds and
/// restores the circulating balances, the deposits and the totals.
pub proof fn lemma_deposit_then_withdraw(
    s: State,
    treasury: AccountId,
    who: AccountId,
    asset: Seq<u8>,
    amount: Balance,
)
    requires
        whole(s),
        amount > 0,
        s.deposits[(who, asset)] == 0,
        deposited(s, None, treasury, Caller::Signed(who), asset, amount) is Ok,
    ensures
        withdrawn(
            deposited(s, None, treasury, Caller::Signed(who), asset, amount)->Ok_0,
            None,
            treasury,
            Caller::Signed(who),
            asset,
        ) == Ok::<State, DispatchError>(s),
{
    let mid = deposited(s, None, treasury, Caller::Signed(who), asset, amount)->Ok_0;
    assert(s.accounts.dom().contains((who, asset)));
    assert(s.accounts.dom().contains((treasury, asset)));
    assert(s.deposits.dom().contains((who, asset)));
    assert(s.totals.dom().contains(asset));
    crate::primitives::currency::lemma_burn_then_mint(s.accounts, treasury, who, asset, amount);
    let back = withdrawn(mid, None, treasury, Caller::Signed(who), asset);
    assert(back is Ok);
    assert(back->Ok_0.accounts =~= s.accounts);
    assert(back->Ok_0.deposits =~= s.deposits);
    assert(back->Ok_0.totals =~= s.totals);
}

/// The engine: what each account has deposited of each asset, and the total
/// deposited of each asset.
pub struct Pallet {
    config: Config,
    deposits: BalanceMap,
    total_deposits: AssetMap<Balance>,
}

impl Pallet {
    /// The configuration.
    pub closed spec fn config(&self) -> Config {
        self.config
    }

    /// What every account has deposited of every asset.
    pub closed spec fn deposits(&self) -> Accounts {
        self.deposits@
    }

    /// The non-zero deposits in the order in which they came to be.
    pub closed spec fn deposit_rows(&self) -> Seq<Row> {
        self.deposits.rows()
    }

    /// The recorded totals in the order in which the assets were first
    /// deposited.
    pub closed spec fn total_slots(&self) -> Seq<Slot<Balance>> {
        self.total_deposits.slots()
    }

    /// What is deposited of every asset, over all accounts.
    pub closed spec fn totals(&self) -> Map<Seq<u8>, Balance> {
        Map::total(|asset: Seq<u8>| total_at(self.total_deposits@, asset))
    }

    /// The total recorded for an asset is the sum of its deposits.
    #[verifier::type_invariant]
    pub closed spec fn wf(&self) -> bool {
        forall|asset: Seq<u8>| #[trigger]
            total_at(self.total_deposits@, asset) == self.deposits.total(asset)
    }

    /// The engine beside a ledger with the balances `accounts`, as one state.
    pub open spec fn state(&self, accounts: Accounts) -> State {
        State { accounts, deposits: self.deposits(), totals: self.totals() }
    }

    /// The tables are well formed, and the total recorded for an asset is the
    /// sum of its deposits.
    pub closed spec fn sound(&self) -> bool {
        &&& self.wf()
        &&& self.deposits.wf()
        &&& self.total_deposits.wf()
    }

    /// The total of each asset is the sum of the deposits of that asset, no
    /// two deposits are of the same account and asset, and none is zero.
    pub proof fn lemma_totals(&self, asset: Seq<u8>)
        requires
            self.sound(),
        ensures
            self.totals()[asset] == crate::storage::asset_sum(self.deposit_rows(), asset),
            self.totals().dom().contains(asset),
            self.deposits() == crate::storage::view_of(self.deposit_rows()),
            crate::storage::distinct_keys(self.deposit_rows()),
            crate::storage::no_zero(self.deposit_rows()),
    {
    }

    /// The depositors of an asset are together worth no more than all
    /// deposits, where these are worth less than the largest amount.
    pub proof fn lemma_weights_within<P: PriceGetter>(&self, accounts: Accounts, prices: &P, asset: Seq<u8>)
        requires
            self.sound(),
            self.cycle(accounts, prices).total < Balance::MAX,
        ensures
            weight_sum(
                self.cycle(accounts, prices),
                self.deposit_rows().len() as int,
                asset,
            ) <= self.cycle(accounts, prices).total,
    {
        let c = self.cycle(accounts, prices);
        let quotes = prices.quotes();
        let stable = prices.stable();
        let rows = self.deposits.rows();
        let slots = self.total_deposits.slots();
        assert forall|j: int| 0 <= j < rows.len() implies crate::storage::has_slot(
            slots,
            (#[trigger] rows[j]).asset,
        ) by {
            crate::storage::lemma_amount_of_row(rows, j);
            crate::storage::lemma_amount_within_sum(rows, rows[j].who, rows[j].asset);
            assert(total_at(self.total_deposits@, rows[j].asset) == self.deposits.total(
                rows[j].asset,
            ));
        }
        assert forall|i: int| 0 <= i < slots.len() implies (#[trigger] slots[i]).value
            == crate::storage::asset_sum(rows, slots[i].key) by {
            crate::storage::lemma_slot_unique(slots, i);
            assert(total_at(self.total_deposits@, slots[i].key) == self.deposits.total(
                slots[i].key,
            ));
        }
        crate::distribution::worth::lemma_weights_within_total(c, quotes, stable, slots, asset);
    }

    /// Of two depositors of the same asset, the one whose deposits are worth
    /// twice those of the other earns twice the other's share of that asset,
    /// or one unit more.
    pub proof fn lemma_cycle_proportional<P: PriceGetter>(
        &self,
        accounts: Accounts,
        prices: &P,
        i: int,
        j: int,
    )
        requires
            self.sound(),
            self.cycle(accounts, prices).total != 0,
            0 <= i < self.deposit_rows().len(),
            0 <= j < self.deposit_rows().len(),
            self.deposit_rows()[i].asset == self.deposit_rows()[j].asset,
            self.cycle(accounts, prices).weights[self.deposit_rows()[i].who] == 2 * self.cycle(
                accounts,
                prices,
            ).weights[self.deposit_rows()[j].who],
        ensures
            2 * share_at(self.cycle(accounts, prices), j) <= share_at(
                self.cycle(accounts, prices),
                i,
            ) <= 2 * share_at(self.cycle(accounts, prices), j) + 1,
    {
        let c = self.cycle(accounts, prices);
        let n = c.rows.len() as int;
        let heavy = c.weights[c.rows[i].who];
        let light = c.weights[c.rows[j].who];
        let pool = c.pools[c.rows[i].asset];
        if c.total < Balance::MAX {
            self.lemma_weights_within(accounts, prices, c.rows[i].asset);
            crate::distribution::plan::lemma_weight_in_sum(c, n, i);
        }
        assert(heavy <= c.total);
        crate::distribution::plan::lemma_share_fits(pool, heavy, c.total);
        crate::distribution::plan::lemma_shares_proportional(pool, light, c.total);
    }

    /// A cycle pays out the whole reward pool of every asset that has a
    /// depositor, the shares to the depositors and the rest to the treasury,
    /// provided that the deposits are worth something, and less than the
    /// largest amount.
    pub proof fn lemma_cycle_drains<P: PriceGetter>(&self, accounts: Accounts, prices: &P, asset: Seq<u8>)
        requires
            self.sound(),
            self.cycle(accounts, prices).total != 0,
            self.cycle(accounts, prices).total < Balance::MAX,
            met(self.deposit_rows(), self.deposit_rows().len() as int, asset),
        ensures
            paid_out(plan(self.cycle(accounts, prices)), asset) == accounts[(
                self.config().module_id,
                asset,
            )],
            distributed(
                self.cycle(accounts, prices),
                self.deposit_rows().len() as int,
                asset,
            ) <= accounts[(self.config().module_id, asset)],
    {
        let c = self.cycle(accounts, prices);
        self.lemma_weights_within(accounts, prices, asset);
        crate::distribution::plan::lemma_shares_within_pool(c, asset);
        crate::distribution::plan::lemma_cycle_drains_pool(c, asset);
    }

    /// After a synchronous cycle in which every payment goes through and none
    /// goes to the distribution account itself, that account holds nothing of
    /// an asset that has a depositor.
    pub proof fn lemma_cycle_empties_pool<A: AssetGetter, P: PriceGetter>(
        &self,
        accounts: Accounts,
        assets: &A,
        prices: &P,
        asset: Seq<u8>,
    )
        requires
            self.sound(),
            forall|k: (AccountId, Seq<u8>)| #[trigger] accounts.dom().contains(k),
            self.cycle(accounts, prices).total != 0,
            self.cycle(accounts, prices).total < Balance::MAX,
            met(self.deposit_rows(), self.deposit_rows().len() as int, asset),
            settled(accounts, assets, self.config().module_id, plan(self.cycle(accounts, prices)))
                == plan(self.cycle(accounts, prices)),
            forall|i: int|
                0 <= i < plan(self.cycle(accounts, prices)).len() ==> (#[trigger] plan(
                    self.cycle(accounts, prices),
                )[i]).who != self.config().module_id,
        ensures
            paid(accounts, assets, self.config().module_id, plan(self.cycle(accounts, prices)))[(
                self.config().module_id,
                asset,
            )] == 0,
    {
        self.lemma_cycle_drains(accounts, prices, asset);
        lemma_paid_leaves(
            accounts,
            assets,
            self.config().module_id,
            plan(self.cycle(accounts, prices)),
            asset,
        );
    }

    /// An engine without deposits.
    pub fn new(config: Config) -> (p: Self)
        ensures
            p.config() == config,
            p.deposit_rows() == Seq::<Row>::empty(),
            p.total_slots() == Seq::<Slot<Balance>>::empty(),
            forall|who: AccountId, asset: Seq<u8>| #[trigger] p.deposits()[(who, asset)] == 0,
            forall|asset: Seq<u8>| #[trigger] p.totals()[asset] == 0,
            p.sound(),
    {
        Pallet { config, deposits: BalanceMap::new(), total_deposits: AssetMap::new() }
    }

    /// Sets the deposit of `who` in `asset` to `amount` and the total of the
    /// asset to `total`.
    fn record(&mut self, who: AccountId, asset: &AssetId, amount: Balance, total: Balance)
        requires
            total == old(self).totals()[asset@] - old(self).deposits()[(who, asset@)] + amount,
        ensures
            final(self).config() == old(self).config(),
            final(self).deposits() == old(self).deposits().insert((who, asset@), amount),
            final(self).totals() == old(self).totals().insert(asset@, total),
            final(self).deposit_rows() == rows_with(old(self).deposit_rows(), who, asset@, amount),
            final(self).total_slots() == slots_with(old(self).total_slots(), asset@, total),
            final(self).sound(),
    {
        proof {
            use_type_invariant(&*self);
        }
        let mut taken = Pallet::new(self.config);
        core::mem::swap(self, &mut taken);
        let Pallet { config, mut deposits, mut total_deposits } = taken;
        let ghost before = deposits;
        let ghost totals_before = total_deposits@;
        deposits.insert(who, asset, amount);
        total_deposits.insert(asset, total);
        assert forall|a: Seq<u8>| #[trigger]
            total_at(total_deposits@, a) == deposits.total(a) by {
            assert(total_at(totals_before, a) == before.total(a));
        }
        proof {
            use_type_invariant(&deposits);
            use_type_invariant(&total_deposits);
        }
        let mut next = Pallet { config, deposits, total_deposits };
        assert(next.totals() =~= old(self).totals().insert(asset@, total));
        core::mem::swap(self, &mut next);
    }

    /// Takes `amount` of `asset` out of the signer's circulating balance and
    /// adds it to the signer's deposit.
    pub fn deposit(
        &mut self,
        ledger: &mut crate::balances::Pallet,
        assets: &crate::assets::Pallet,
        origin: Caller,
        asset: AssetId,
        amount: Balance,
    ) -> (r: Result<Event, DispatchError>)
        ensures
            final(self).sound(),
            final(self).config() == old(self).config(),
            final(ledger).config() == old(ledger).config(),
            forall|a: Seq<u8>| #[trigger] final(ledger).total(a) == old(ledger).total(a),
            r is Err ==> *final(self) == *old(self) && *final(ledger) == *old(ledger),
            r is Ok ==> {
                &&& final(ledger).rows() == rows_moved(
                    old(ledger).rows(),
                    origin->Signed_0,
                    old(ledger).config().treasury,
                    asset@,
                    amount,
                )
                &&& final(self).deposit_rows() == rows_credited(
                    old(self).deposit_rows(),
                    origin->Signed_0,
                    asset@,
                    amount,
                )
                &&& final(self).total_slots() == slots_with(
                    old(self).total_slots(),
                    asset@,
                    (old(self).totals()[asset@] + amount) as Balance,
                )
            },
            match deposited(
                old(self).state(old(ledger)@),
                refusal(assets, asset@),
                old(ledger).config().treasury,
                origin,
                asset@,
                amount,
            ) {
                Ok(s) => final(self).state(final(ledger)@) == s && reports_deposit(
                    r,
                    origin,
                    asset@,
                    amount,
                    s,
                ),
                Err(e) => final(self).state(final(ledger)@) == old(self).state(old(ledger)@) && r
                    == Err::<Event, DispatchError>(e),
            },
    {
        proof {
            use_type_invariant(&*self);
            use_type_invariant(&self.deposits);
            use_type_invariant(&self.total_deposits);
        }
        let who = match ensure_signed(origin) {
            Ok(who) => who,
            Err(e) => {
                return Err(e);
            },
        };
        proof {
            self.deposits.lemma_within_total(who, asset@);
        }
        if let Err(e) = ledger.burn_refusal(assets, who, &asset, amount) {
            return Err(e);
        }
        let total = match self.total_deposits.get(&asset) {
            Some(t) => t,
            None => 0,
        };
        let new_total = match total.checked_add(amount) {
            Some(t) => t,
            None => {
                return Err(DispatchError::Balances(LedgerError::Overflow));
            },
        };
        if let Err(e) = ledger.do_burn(assets, who, &asset, amount) {
            return Err(e);
        }
        let held = self.deposits.get(who, &asset) + amount;
        self.record(who, &asset, held, new_total);
        Ok(Event::NewDeposit { who, asset, amount, total: held })
    }

    /// Gives the signer's whole deposit of `asset` back to the signer's
    /// circulating balance.
    pub fn withdraw(
        &mut self,
        ledger: &mut crate::balances::Pallet,
        assets: &crate::assets::Pallet,
        origin: Caller,
        asset: AssetId,
    ) -> (r: Result<Event, DispatchError>)
        ensures
            final(self).sound(),
            final(self).config() == old(self).config(),
            final(ledger).config() == old(ledger).config(),
            forall|a: Seq<u8>| #[trigger] final(ledger).total(a) == old(ledger).total(a),
            r is Err ==> *final(self) == *old(self) && *final(ledger) == *old(ledger),
            r is Ok ==> {
                &&& final(ledger).rows() == rows_moved(
                    old(ledger).rows(),
                    old(ledger).config().treasury,
                    origin->Signed_0,
                    asset@,
                    old(self).deposits()[(origin->Signed_0, asset@)],
                )
                &&& final(self).deposit_rows() == rows_with(
                    old(self).deposit_rows(),
                    origin->Signed_0,
                    asset@,
                    0,
                )
                &&& final(self).total_slots() == slots_with(
                    old(self).total_slots(),
                    asset@,
                    (old(self).totals()[asset@] - old(self).deposits()[(origin->Signed_0, asset@)]) as Balance,
                )
            },
            match withdrawn(
                old(self).state(old(ledger)@),
                refusal(assets, asset@),
                old(ledger).config().treasury,
                origin,
                asset@,
            ) {
                Ok(s) => final(self).state(final(ledger)@) == s && reports_withdraw(
                    r,
                    origin,
                    asset@,
                    old(self).state(old(ledger)@),
                ),
                Err(e) => final(self).state(final(ledger)@) == old(self).state(old(ledger)@) && r
                    == Err::<Event, DispatchError>(e),
            },
    {
        proof {
            use_type_invariant(&*self);
            use_type_invariant(&self.deposits);
            use_type_invariant(&self.total_deposits);
        }
        let who = match ensure_signed(origin) {
            Ok(who) => who,
            Err(e) => {
                return Err(e);
            },
        };
        proof {
            self.deposits.lemma_within_total(who, asset@);
        }
        let amount = self.deposits.get(who, &asset);
        if amount == 0 {
            return Err(DispatchError::Distribution(Error::NoDeposit));
        }
        if let Err(e) = ledger.do_mint(assets, who, &asset, amount) {
            return Err(e);
        }
        let total = match self.total_deposits.get(&asset) {
            Some(t) => t,
            None => 0,
        };
        self.record(who, &asset, 0, total - amount);
        Ok(Event::Withdraw { who, asset, amount })
    }

    /// Funds the reward pool with `amount` of `asset`: out of the signer's
    /// balance where an account signs, and minted out of the treasury where
    /// the system itself asks, or the privileged caller.
    pub fn issue(
        &mut self,
        ledger: &mut crate::balances::Pallet,
        assets: &crate::assets::Pallet,
        origin: Caller,
        asset: AssetId,
        amount: Balance,
    ) -> (r: Result<Event, DispatchError>)
        ensures
            *final(self) == *old(self),
            final(ledger).config() == old(ledger).config(),
            forall|a: Seq<u8>| #[trigger] final(ledger).total(a) == old(ledger).total(a),
            r is Err ==> *final(ledger) == *old(ledger),
            r is Ok ==> final(ledger).rows() == match origin {
                Caller::Signed(who) => rows_moved(
                    old(ledger).rows(),
                    who,
                    old(self).config().module_id,
                    asset@,
                    amount,
                ),
                _ => rows_moved(
                    old(ledger).rows(),
                    old(ledger).config().treasury,
                    old(self).config().module_id,
                    asset@,
                    amount,
                ),
            },
            match issued(
                old(ledger)@,
                refusal(assets, asset@),
                old(ledger).config().treasury,
                old(self).config().module_id,
                origin,
                asset@,
                amount,
            ) {
                Ok(m) => final(ledger)@ == m && (r matches Ok(Event::Issued { asset: a, amount: x })
                    && a@ == asset@ && x == amount),
                Err(e) => final(ledger)@ == old(ledger)@ && r == Err::<Event, DispatchError>(e),
            },
    {
        let distribution = self.config.module_id;
        let done = match origin {
            Caller::Signed(who) => ledger.do_transfer(assets, who, distribution, &asset, amount),
            Caller::Unsigned => ledger.do_mint(assets, distribution, &asset, amount),
            Caller::Root => ledger.do_mint(assets, distribution, &asset, amount),
        };
        match done {
            Ok(()) => Ok(Event::Issued { asset, amount }),
            Err(e) => Err(e),
        }
    }

    /// Pays `amount` of `asset` out of the reward pool to `who`. Only the
    /// system itself may do so.
    pub fn redistribute(
        &mut self,
        ledger: &mut crate::balances::Pallet,
        assets: &crate::assets::Pallet,
        origin: Caller,
        who: AccountId,
        asset: AssetId,
        amount: Balance,
        block: BlockNumber,
    ) -> (r: Result<Event, DispatchError>)
        ensures
            *final(self) == *old(self),
            final(ledger).config() == old(ledger).config(),
            forall|a: Seq<u8>| #[trigger] final(ledger).total(a) == old(ledger).total(a),
            r is Err ==> *final(ledger) == *old(ledger),
            r is Ok ==> final(ledger).rows() == rows_moved(
                old(ledger).rows(),
                old(self).config().module_id,
                who,
                asset@,
                amount,
            ),
            match redistributed(
                old(ledger)@,
                refusal(assets, asset@),
                old(self).config().module_id,
                origin,
                who,
                asset@,
                amount,
            ) {
                Ok(m) => final(ledger)@ == m && (r matches Ok(
                    Event::Redistributed { who: w, asset: a, amount: x },
                ) && w == who && a@ == asset@ && x == amount),
                Err(e) => final(ledger)@ == old(ledger)@ && r == Err::<Event, DispatchError>(e),
            },
    {
        if let Err(e) = ensure_none(origin) {
            return Err(e);
        }
        let distribution = self.config.module_id;
        match ledger.do_transfer(assets, distribution, who, &asset, amount) {
            Ok(()) => Ok(Event::Redistributed { who, asset, amount }),
            Err(e) => Err(e),
        }
    }
}

/// Whether `r` reports the deposit that led to the state `after`.
pub open spec fn reports_deposit(
    r: Result<Event, DispatchError>,
    origin: Caller,
    asset: Seq<u8>,
    amount: Balance,
    after: State,
) -> bool {
    r matches Ok(Event::NewDeposit { who, asset: a, amount: x, total }) && origin == Caller::Signed(who)
        && a@ == asset && x == amount && total == after.deposits[(who, asset)]
}

/// Whether `r` reports the withdrawal of the deposit held in `before`.
pub open spec fn reports_withdraw(
    r: Result<Event, DispatchError>,
    origin: Caller,
    asset: Seq<u8>,
    before: State,
) -> bool {
    r matches Ok(Event::Withdraw { who, asset: a, amount }) && origin == Caller::Signed(who) && a@
        == asset && amount == before.deposits[(who, asset)]
}

/// Funding the reward pool: a signer pays the distribution account; for the
/// system itself, and for the privileged caller, the treasury pays it.
pub open spec fn issued(
    m: Accounts,
    refused: Option<DispatchError>,
    treasury: AccountId,
    distribution: AccountId,
    origin: Caller,
    asset: Seq<u8>,
    amount: Balance,
) -> Result<Accounts, DispatchError> {
    match origin {
        Caller::Signed(who) => transferred(m, refused, who, distribution, asset, amount),
        Caller::Unsigned => minted(m, refused, treasury, distribution, asset, amount),
        Caller::Root => minted(m, refused, treasury, distribution, asset, amount),
    }
}

/// Paying out of the reward pool, which only the system itself may ask for.
pub open spec fn redistributed(
    m: Accounts,
    refused: Option<DispatchError>,
    distribution: AccountId,
    origin: Caller,
    who: AccountId,
    asset: Seq<u8>,
    amount: Balance,
) -> Result<Accounts, DispatchError> {
    if origin == Caller::Unsigned {
        transferred(m, refused, distribution, who, asset, amount)
    } else {
        Err(DispatchError::BadOrigin)
    }
}

/// What can be asked of the engine.
#[derive(Debug, PartialEq, Eq)]
pub enum Call {
    Deposit { asset: AssetId, amount: Balance },
    Withdraw { asset: AssetId },
    Issue { asset: AssetId, amount: Balance },
    Redistribute { who: AccountId, asset: AssetId, amount: Balance, block: BlockNumber },
}

/// Whether `call` asks to pay `payout` and names the cycle `block`.
pub open spec fn asks(call: Call, payout: Payout, block: BlockNumber) -> bool {
    call matches Call::Redistribute { who, asset, amount, block: b } && who == payout.who && asset@
        == payout.asset && amount == payout.amount && b == block
}

/// Whether `calls` ask for the payments `payouts`, one by one and in order,
/// each naming the cycle `block`.
pub open spec fn ask_for(calls: Seq<Call>, payouts: Seq<Payout>, block: BlockNumber) -> bool {
    &&& calls.len() == payouts.len()
    &&& forall|i: int| 0 <= i < calls.len() ==> asks(#[trigger] calls[i], payouts[i], block)
}

/// Calls `multiply_by_rational_with_rounding` of sp_runtime's 128-bit
/// helpers, rounding down: `a * b / c` rounded down, or nothing where `c` is
/// zero or the quotient does not fit.
#[verifier::external_body]
fn multiply_by_rational(a: Balance, b: Balance, c: Balance) -> (r: Option<Balance>)
    ensures
        r == mul_div(a as nat, b as nat, c as nat),
{
    sp_runtime::helpers_128bit::multiply_by_rational_with_rounding(a, b, c, sp_runtime::Rounding::Down)
}

impl Pallet {
    /// What a cycle starts from, beside a ledger with the balances
    /// `accounts` and at the prices of `prices`.
    pub open spec fn cycle<P: PriceGetter>(&self, accounts: Accounts, prices: &P) -> Cycle {
        Cycle {
            rows: self.deposit_rows(),
            weights: Map::total(
                |who: AccountId|
                    capped(
                        worth_of_rows(prices.quotes(), prices.stable(), self.deposit_rows(), who),
                    ),
            ),
            pools: Map::total(|asset: Seq<u8>| accounts[(self.config().module_id, asset)]),
            total: capped(worth_of_slots(prices.quotes(), prices.stable(), self.total_slots())),
            treasury: self.config().treasury,
        }
    }

    /// What all deposits are worth in the stable asset: the sum over the
    /// assets that have a price, held at the largest amount.
    pub fn total_in_stable(&self, prices: &crate::oracle::Pallet) -> (r: Balance)
        ensures
            r == capped(worth_of_slots(prices.quotes(), prices.stable(), self.total_slots())),
    {
        let mut acc: Balance = 0;
        let mut i: usize = 0;
        while i < self.total_deposits.len()
            invariant
                i <= self.total_deposits.slots().len(),
                acc == capped(
                    worth_of_slots(
                        prices.quotes(),
                        prices.stable(),
                        self.total_deposits.slots().take(i as int),
                    ),
                ),
            decreases self.total_deposits.slots().len() - i,
        {
            let e = self.total_deposits.entry(i);
            proof {
                assert(self.total_deposits.slots().take(i + 1).drop_last()
                    == self.total_deposits.slots().take(i as int));
            }
            if let Ok(v) = prices.to_stable_amount(&e.key, e.value) {
                acc = acc.saturating_add(v);
            }
            i += 1;
        }
        assert(self.total_deposits.slots().take(i as int) == self.total_deposits.slots());
        acc
    }

    /// What the deposits of `who` are worth in the stable asset: the sum over
    /// the assets that have a price, held at the largest amount.
    pub fn deposit_in_stable(&self, prices: &crate::oracle::Pallet, who: AccountId) -> (r: Balance)
        ensures
            r == capped(worth_of_rows(prices.quotes(), prices.stable(), self.deposit_rows(), who)),
    {
        let mut acc: Balance = 0;
        let mut i: usize = 0;
        while i < self.deposits.len()
            invariant
                i <= self.deposits.rows().len(),
                acc == capped(
                    worth_of_rows(
                        prices.quotes(),
                        prices.stable(),
                        self.deposits.rows().take(i as int),
                        who,
                    ),
                ),
            decreases self.deposits.rows().len() - i,
        {
            let e = self.deposits.entry(i);
            proof {
                assert(self.deposits.rows().take(i + 1).drop_last() == self.deposits.rows().take(
                    i as int,
                ));
            }
            if e.who == who {
                if let Ok(v) = prices.to_stable_amount(&e.asset, e.amount) {
                    acc = acc.saturating_add(v);
                }
            }
            i += 1;
        }
        assert(self.deposits.rows().take(i as int) == self.deposits.rows());
        acc
    }

    /// The payments of one cycle, each as a request that names the cycle `n`.
    pub fn plan_cycle(
        &self,
        ledger: &crate::balances::Pallet,
        prices: &crate::oracle::Pallet,
        n: BlockNumber,
    ) -> (out: Vec<Call>)
        ensures
            ask_for(out@, plan(self.cycle(ledger@, prices)), n),
    {
        let ghost c = self.cycle(ledger@, prices);
        let total = self.total_in_stable(prices);
        let mut out: Vec<Call> = Vec::new();
        if total == 0 {
            return out;
        }
        let module = self.config.module_id;
        let mut memo: Vec<Memo> = Vec::new();
        let mut i: usize = 0;
        assert(memo_assets(memo@) =~= touched(c.rows, 0));
        while i < self.deposits.len()
            invariant
                c == self.cycle(ledger@, prices),
                c.rows == self.deposits.rows(),
                total == c.total,
                total != 0,
                module == self.config().module_id,
                i <= c.rows.len(),
                memo_assets(memo@) == touched(c.rows, i as int),
                forall|j: int|
                    0 <= j < memo.len() ==> (#[trigger] memo[j]).pool == c.pools[memo[j].asset@]
                        && memo[j].distributed == capped(distributed(c, i as int, memo[j].asset@)),
                ask_for(out@, shares(c, i as int), n),
            decreases c.rows.len() - i,
        {
            let e = self.deposits.entry(i);
            let weight = self.deposit_in_stable(prices, e.who);
            let ghost asset = e.asset@;
            let ghost old_memo = memo@;
            proof {
                lemma_touched(c.rows, i as int);
                lemma_touched(c.rows, i + 1);
                assert(c.rows[i as int].asset == asset);
            }
            let at = match find(&memo, &e.asset) {
                Some(at) => {
                    assert(memo_assets(memo@)[at as int] == asset);
                    assert(touched(c.rows, i as int).contains(asset));
                    assert(touched(c.rows, i + 1) == with_asset(touched(c.rows, i as int), asset));
                    at
                },
                None => {
                    let at = slot_for(&memo, &e.asset);
                    let pool = <crate::balances::Pallet as Currency>::balance(
                        ledger,
                        &module,
                        &e.asset,
                    );
                    memo.insert(at, Memo { asset: e.asset.clone(), pool, distributed: 0 });
                    proof {
                        assert(memo_assets(memo@) =~= memo_assets(old_memo).insert(at as int, asset));
                        assert(touched(c.rows, i + 1) == with_asset(touched(c.rows, i as int), asset));
                        assert(memo_assets(memo@) == touched(c.rows, i + 1));
                        lemma_unmet(c, i as int, asset);
                        assert forall|j: int| 0 <= j < memo.len() implies (#[trigger] memo[j]).pool
                            == c.pools[memo[j].asset@] && memo[j].distributed == capped(
                            distributed(c, i as int, memo[j].asset@),
                        ) by {
                            if j < at {
                                assert(memo[j] == old_memo[j]);
                            } else if j > at {
                                assert(memo[j] == old_memo[j - 1]);
                            }
                        }
                    }
                    at
                },
            };
            assert(memo_assets(memo@) == touched(c.rows, i + 1));
            assert(memo_assets(memo@)[at as int] == asset);
            let pool = memo[at].pool;
            let before = memo[at].distributed;
            let s = match multiply_by_rational(pool, weight, total) {
                Some(v) => v,
                None => 0,
            };
            assert(s == share_at(c, i as int));
            let ghost mid_memo = memo@;
            if s != 0 {
                memo.set(at, Memo { asset: e.asset.clone(), pool, distributed: before.saturating_add(s) });
                out.push(Call::Redistribute { who: e.who, asset: e.asset.clone(), amount: s, block: n });
            }
            proof {
                assert(memo_assets(memo@) =~= memo_assets(mid_memo));
                assert forall|j: int| 0 <= j < memo.len() implies (#[trigger] memo[j]).pool
                    == c.pools[memo[j].asset@] && memo[j].distributed == capped(
                    distributed(c, i + 1, memo[j].asset@),
                ) by {
                    assert(mid_memo[j].distributed == capped(
                        distributed(c, i as int, mid_memo[j].asset@),
                    ));
                    if j != at {
                        assert(memo[j] == mid_memo[j]);
                        assert(memo_assets(memo@)[j] != memo_assets(memo@)[at as int]);
                    }
                }
            }
            i += 1;
        }
        let treasury = self.config.treasury;
        let ghost list = touched(c.rows, c.rows.len() as int);
        let ghost paid = out@;
        let mut k: usize = 0;
        while k < memo.len()
            invariant
                treasury == c.treasury,
                k <= memo.len(),
                memo_assets(memo@) == list,
                list == touched(c.rows, c.rows.len() as int),
                forall|j: int|
                    0 <= j < memo.len() ==> (#[trigger] memo[j]).pool == c.pools[memo[j].asset@]
                        && memo[j].distributed == capped(
                        distributed(c, c.rows.len() as int, memo[j].asset@),
                    ),
                ask_for(out@, shares(c, c.rows.len() as int) + residues(c, list, k as int), n),
            decreases memo.len() - k,
        {
            let m = &memo[k];
            assert(list[k as int] == m.asset@);
            if m.distributed < m.pool {
                let rest = m.pool - m.distributed;
                assert(rest == residue(c, m.asset@));
                out.push(Call::Redistribute { who: treasury, asset: m.asset.clone(), amount: rest, block: n });
            }
            k += 1;
        }
        out
    }
}

/// For how many cycles a redistribution request stays valid.
pub const VALIDITY_WINDOW: u64 = 5;

/// With what priority a redistribution request is taken up.
pub const REQUEST_PRIORITY: u64 = 1;

/// Where a transaction comes from.
#[derive(Clone, Copy, Debug, PartialEq, Eq, Structural)]
pub enum TransactionSource {
    InBlock,
    Local,
    External,
}

/// What is known of a valid transaction.
#[derive(Debug, PartialEq, Eq)]
pub struct ValidTransaction {
    /// Which of two ready transactions goes first.
    pub priority: u64,
    /// The tags that other transactions must provide first.
    pub requires: Vec<Vec<u8>>,
    /// The tags that this transaction provides; two transactions that
    /// provide the same tag exclude one another.
    pub provides: Vec<Vec<u8>>,
    /// For how many cycles the transaction stays valid.
    pub longevity: u64,
    /// Whether the transaction is passed on to other nodes.
    pub propagate: bool,
}

/// The tag that a transaction for `who` and `asset` provides under `prefix`:
/// the encodings of the prefix, of the account and of the asset, in a row.
pub open spec fn tag_bytes(prefix: Seq<u8>, who: AccountId, asset: Seq<u8>) -> Seq<u8> {
    encoded(prefix) + spec_u64_to_le_bytes(who) + encoded(asset)
}

/// Two requests provide the same tag only if they are for the same account
/// and the same asset.
pub proof fn lemma_tag_tells_pair(
    prefix: Seq<u8>,
    who: AccountId,
    asset: Seq<u8>,
    other: AccountId,
    other_asset: Seq<u8>,
)
    requires
        tag_bytes(prefix, who, asset) == tag_bytes(prefix, other, other_asset),
    ensures
        who == other,
        asset == other_asset,
{
    vstd::bytes::lemma_auto_spec_u64_to_from_le_bytes();
    let head = encoded(prefix).len() as int;
    let one = tag_bytes(prefix, who, asset);
    let two = tag_bytes(prefix, other, other_asset);
    assert(one.subrange(head, head + 8) =~= spec_u64_to_le_bytes(who));
    assert(two.subrange(head, head + 8) =~= spec_u64_to_le_bytes(other));
    assert(one.skip(head + 8) =~= encoded(asset));
    assert(two.skip(head + 8) =~= encoded(other_asset));
    crate::primitives::assets::lemma_encoded_injective(asset, other_asset);
}

/// Builds a validity with sp_runtime's `ValidTransaction::with_tag_prefix`,
/// `priority`, `and_provides` and `longevity`. The result has the priority
/// and longevity given, requires nothing, is propagated, and provides the one
/// tag that parity-scale-codec encodes `(prefix, (who, asset))` to.
#[verifier::external_body]
fn tagged_validity(prefix: &'static str, priority: u64, longevity: u64, who: AccountId, asset: &Vec<u8>) -> (v:
    ValidTransaction)
    requires
        prefix.spec_bytes().len() < 64,
        asset@.len() < 64,
    ensures
        v.priority == priority,
        v.longevity == longevity,
        v.propagate,
        v.requires@.len() == 0,
        v.provides@.len() == 1,
        v.provides@[0]@ == tag_bytes(prefix.spec_bytes(), who, asset@),
{
    let built: sp_runtime::transaction_validity::ValidTransaction =
        sp_runtime::transaction_validity::ValidTransaction::with_tag_prefix(prefix)
            .priority(priority)
            .and_provides((who, asset))
            .longevity(longevity)
            .into();
    ValidTransaction {
        priority: built.priority,
        requires: built.requires,
        provides: built.provides,
        longevity: built.longevity,
        propagate: built.propagate,
    }
}

/// Whether a request computed at the cycle `block` is still taken at the
/// cycle `now`.
pub open spec fn in_window(block: BlockNumber, now: BlockNumber) -> bool {
    block + VALIDITY_WINDOW > now
}

/// Whether `v` is the validity of a redistribution request for `who` and
/// `asset`.
pub open spec fn request_validity(v: ValidTransaction, who: AccountId, asset: Seq<u8>) -> bool {
    &&& v.priority == REQUEST_PRIORITY
    &&& v.longevity == VALIDITY_WINDOW
    &&& v.propagate
    &&& v.requires@.len() == 0
    &&& v.provides@.len() == 1
    &&& v.provides@[0]@ == tag_bytes("Distribution".spec_bytes(), who, asset)
}

impl Pallet {
    /// Judges a call that comes without a signer at the cycle `now`. Only a
    /// redistribution request is taken, and only within the validity window
    /// of the cycle that it names; it provides a tag made of its account and
    /// its asset, so that of two requests for the same pair one is dropped.
    pub fn validate_unsigned(source: TransactionSource, call: &Call, now: BlockNumber) -> (r: Result<
        ValidTransaction,
        TransactionValidityError,
    >)
        ensures
            match *call {
                Call::Redistribute { who, asset, amount, block } => if in_window(block, now) {
                    r matches Ok(v) && request_validity(v, who, asset@)
                } else {
                    r == Err::<ValidTransaction, TransactionValidityError>(
                        TransactionValidityError::Invalid(InvalidTransaction::Stale),
                    )
                },
                _ => r == Err::<ValidTransaction, TransactionValidityError>(
                    TransactionValidityError::Unknown(UnknownTransaction::NoUnsignedValidator),
                ),
            },
    {
        match call {
            Call::Redistribute { who, asset, amount, block } => {
                if *block > now || now - *block < VALIDITY_WINDOW {
                    proof {
                        reveal_strlit("Distribution");
                        vstd::string::is_ascii_spec_bytes("Distribution");
                    }
                    Ok(
                        tagged_validity(
                            "Distribution",
                            REQUEST_PRIORITY,
                            VALIDITY_WINDOW,
                            *who,
                            asset.as_bytes(),
                        ),
                    )
                } else {
                    Err(TransactionValidityError::Invalid(InvalidTransaction::Stale))
                }
            },
            _ => Err(TransactionValidityError::Unknown(UnknownTransaction::NoUnsignedValidator)),
        }
    }
}

/// The flag by which the background task of one node keeps two of its runs
/// from overlapping.
pub struct OffchainLock {
    locked: bool,
}

impl OffchainLock {
    /// Whether a run holds the lock.
    pub closed spec fn is_locked(&self) -> bool {
        self.locked
    }

    /// A lock that nobody holds.
    pub fn new() -> (lock: Self)
        ensures
            !lock.is_locked(),
    {
        OffchainLock { locked: false }
    }

    /// Takes the lock unless it is held; tells whether it was taken.
    pub fn try_acquire(&mut self) -> (taken: bool)
        ensures
            taken == !old(self).is_locked(),
            final(self).is_locked(),
    {
        if self.locked {
            false
        } else {
            self.locked = true;
            true
        }
    }

    /// Gives the lock up.
    pub fn clear(&mut self)
        ensures
            !final(self).is_locked(),
    {
        self.locked = false;
    }
}

/// The balances after the payments `payouts` out of the account `module`,
/// each applied like a transfer; one that fails is left out.
pub open spec fn paid<A: AssetGetter>(
    m: Accounts,
    assets: &A,
    module: AccountId,
    payouts: Seq<Payout>,
) -> Accounts
    decreases payouts.len(),
{
    if payouts.len() == 0 {
        m
    } else {
        let before = paid(m, assets, module, payouts.drop_last());
        let last = payouts.last();
        match transferred(before, refusal(assets, last.asset), module, last.who, last.asset, last.amount) {
            Ok(after) => after,
            Err(_) => before,
        }
    }
}

/// The rows of the ledger after the payments `payouts` out of the account
/// `module`, each applied like a transfer; one that fails is left out.
pub open spec fn paid_rows<A: AssetGetter>(
    rows: Seq<Row>,
    assets: &A,
    module: AccountId,
    payouts: Seq<Payout>,
) -> Seq<Row>
    decreases payouts.len(),
{
    if payouts.len() == 0 {
        rows
    } else {
        let before = paid_rows(rows, assets, module, payouts.drop_last());
        let last = payouts.last();
        if transferred(
            crate::storage::view_of(before),
            refusal(assets, last.asset),
            module,
            last.who,
            last.asset,
            last.amount,
        ) is Ok {
            rows_moved(before, module, last.who, last.asset, last.amount)
        } else {
            before
        }
    }
}

/// Those of the payments `payouts` out of the account `module` that go
/// through when they are applied in order.
pub open spec fn settled<A: AssetGetter>(
    m: Accounts,
    assets: &A,
    module: AccountId,
    payouts: Seq<Payout>,
) -> Seq<Payout>
    decreases payouts.len(),
{
    if payouts.len() == 0 {
        Seq::empty()
    } else {
        let before = paid(m, assets, module, payouts.drop_last());
        let last = payouts.last();
        let done = settled(m, assets, module, payouts.drop_last());
        if transferred(before, refusal(assets, last.asset), module, last.who, last.asset, last.amount) is Ok {
            done.push(last)
        } else {
            done
        }
    }
}

/// Where every payment goes through and none goes to the account `module`
/// itself, that account ends with what it held less what was paid out.
pub proof fn lemma_paid_leaves<A: AssetGetter>(
    m: Accounts,
    assets: &A,
    module: AccountId,
    payouts: Seq<Payout>,
    asset: Seq<u8>,
)
    requires
        forall|k: (AccountId, Seq<u8>)| #[trigger] m.dom().contains(k),
        settled(m, assets, module, payouts) == payouts,
        forall|i: int| 0 <= i < payouts.len() ==> (#[trigger] payouts[i]).who != module,
    ensures
        paid(m, assets, module, payouts)[(module, asset)] + paid_out(payouts, asset) == m[(
            module,
            asset,
        )],
    decreases payouts.len(),
{
    if payouts.len() > 0 {
        let shorter = payouts.drop_last();
        let last = payouts.last();
        lemma_settled_len(m, assets, module, shorter);
        let before = paid(m, assets, module, shorter);
        let step = transferred(
            before,
            refusal(assets, last.asset),
            module,
            last.who,
            last.asset,
            last.amount,
        );
        if step is Ok {
            assert(settled(m, assets, module, shorter) == settled(
                m,
                assets,
                module,
                payouts,
            ).drop_last());
        }
        assert(step is Ok);
        assert(settled(m, assets, module, shorter) == shorter);
        assert forall|i: int| 0 <= i < shorter.len() implies (#[trigger] shorter[i]).who
            != module by {
            assert(payouts[i].who != module);
        }
        lemma_paid_leaves(m, assets, module, shorter, asset);
    }
}

/// No more payments go through than there are.
pub proof fn lemma_settled_len<A: AssetGetter>(
    m: Accounts,
    assets: &A,
    module: AccountId,
    payouts: Seq<Payout>,
)
    ensures
        settled(m, assets, module, payouts).len() <= payouts.len(),
    decreases payouts.len(),
{
    if payouts.len() > 0 {
        lemma_settled_len(m, assets, module, payouts.drop_last());
    }
}

/// Whether `events` report the payments `payouts`, one by one and in order.
pub open spec fn report(events: Seq<Event>, payouts: Seq<Payout>) -> bool {
    &&& events.len() == payouts.len()
    &&& forall|i: int|
        0 <= i < events.len() ==> ((#[trigger] events[i]) matches Event::Redistributed {
            who,
            asset,
            amount,
        } && who == payouts[i].who && asset@ == payouts[i].asset && amount == payouts[i].amount)
}

impl Pallet {
    /// Runs `f` under the lock, and gives the lock up when `f` is done.
    /// Fails, without running `f`, where the lock is held.
    pub fn acquire_lock<R, F: FnOnce() -> R>(lock: &mut OffchainLock, f: F) -> (r: Result<R, ()>)
        requires
            !old(lock).is_locked() ==> f.requires(()),
        ensures
            old(lock).is_locked() ==> r is Err && final(lock).is_locked(),
            !old(lock).is_locked() ==> !final(lock).is_locked() && (r matches Ok(v) && f.ensures(
                (),
                v,
            )),
    {
        if lock.try_acquire() {
            let v = f();
            lock.clear();
            Ok(v)
        } else {
            Err(())
        }
    }

    /// The background task of the asynchronous strategy at the cycle `n`:
    /// under the lock, computes the payments of the cycle as requests to
    /// submit. Fails, and computes nothing, where another run holds the
    /// lock; the lock is free again after every run that took it. Under the
    /// synchronous strategy there is nothing to submit.
    pub fn offchain_worker(
        &self,
        lock: &mut OffchainLock,
        ledger: &crate::balances::Pallet,
        prices: &crate::oracle::Pallet,
        n: BlockNumber,
    ) -> (r: Result<Vec<Call>, ()>)
        ensures
            old(lock).is_locked() ==> r is Err && final(lock).is_locked(),
            !old(lock).is_locked() ==> !final(lock).is_locked() && (r matches Ok(calls) && ask_for(
                calls@,
                if self.config().strategy == Strategy::Asynchronous {
                    plan(self.cycle(ledger@, prices))
                } else {
                    Seq::empty()
                },
                n,
            )),
    {
        if !lock.try_acquire() {
            return Err(());
        }
        let calls = match self.config.strategy {
            Strategy::Asynchronous => self.plan_cycle(ledger, prices, n),
            Strategy::Synchronous => Vec::new(),
        };
        lock.clear();
        Ok(calls)
    }

    /// The cycle of the synchronous strategy at the cycle `n`: computes the
    /// payments and applies each to the ledger at once. A payment that the
    /// ledger refuses is dropped and the cycle goes on. Under the
    /// asynchronous strategy nothing happens here.
    pub fn on_initialize(
        &self,
        ledger: &mut crate::balances::Pallet,
        assets: &crate::assets::Pallet,
        prices: &crate::oracle::Pallet,
        n: BlockNumber,
    ) -> (events: Vec<Event>)
        ensures
            final(ledger).config() == old(ledger).config(),
            forall|a: Seq<u8>| #[trigger] final(ledger).total(a) == old(ledger).total(a),
            self.config().strategy == Strategy::Asynchronous ==> *final(ledger) == *old(ledger)
                && events@.len() == 0,
            self.config().strategy == Strategy::Synchronous ==> final(ledger).rows() == paid_rows(
                old(ledger).rows(),
                assets,
                self.config().module_id,
                plan(self.cycle(old(ledger)@, prices)),
            ),
            self.config().strategy == Strategy::Synchronous ==> final(ledger)@ == paid(
                old(ledger)@,
                assets,
                self.config().module_id,
                plan(self.cycle(old(ledger)@, prices)),
            ) && report(
                events@,
                settled(
                    old(ledger)@,
                    assets,
                    self.config().module_id,
                    plan(self.cycle(old(ledger)@, prices)),
                ),
            ),
    {
        let mut events: Vec<Event> = Vec::new();
        match self.config.strategy {
            Strategy::Asynchronous => {
                return events;
            },
            Strategy::Synchronous => {},
        }
        let module = self.config.module_id;
        let ghost payouts = plan(self.cycle(ledger@, prices));
        let ghost start = ledger@;
        let ghost start_rows = ledger.rows();
        let calls = self.plan_cycle(&*ledger, prices, n);
        let count = calls.len();
        let mut i: usize = 0;
        while i < count
            invariant
                count == calls.len(),
                i <= count,
                module == self.config().module_id,
                ledger.config() == old(ledger).config(),
                forall|a: Seq<u8>| #[trigger] ledger.total(a) == old(ledger).total(a),
                ask_for(calls@, payouts, n),
                ledger@ == paid(start, assets, module, payouts.take(i as int)),
                ledger.rows() == paid_rows(start_rows, assets, module, payouts.take(i as int)),
                report(events@, settled(start, assets, module, payouts.take(i as int))),
            decreases count - i,
        {
            proof {
                assert(payouts.take(i + 1).drop_last() == payouts.take(i as int));
                assert(asks(calls@[i as int], payouts[i as int], n));
                ledger.lemma_view();
            }
            match &calls[i] {
                Call::Redistribute { who, asset, amount, block } => {
                    if ledger.do_transfer(assets, module, *who, asset, *amount).is_ok() {
                        events.push(Event::Redistributed { who: *who, asset: asset.clone(), amount: *amount });
                    }
                },
                _ => {},
            }
            i += 1;
        }
        assert(payouts.take(i as int) == payouts);
        events
    }
}

} // verus!
