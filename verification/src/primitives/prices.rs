//! Prices relative to the stable asset, as fixed-point numbers with eighteen
//! decimal places.

use vstd::prelude::*;
use sp_runtime::traits::{CheckedDiv, CheckedMul};
use sp_runtime::{FixedPointNumber, FixedU128};
use crate::math::{mul_div, mul_div_saturating};
use crate::oracle::Error;
use crate::primitives::assets::AssetId;
use crate::primitives::{AccountId, Balance, DispatchError};
use crate::storage::{Row, Slot};

verus! {

/// The inner value of the price one.
pub const PRICE_DIV: u128 = 1_000_000_000_000_000_000;

/// A fixed-point number: `inner / PRICE_DIV`.
#[derive(Clone, Copy, Debug, PartialEq, Eq, Structural)]
pub struct Price {
    pub inner: u128,
}

/// Calls `FixedU128::checked_div` on the numbers with inner values `a` and
/// `b`. The quotient's inner value is `a * PRICE_DIV / b` rounded down;
/// there is none where `b` is zero or the quotient does not fit.
#[verifier::external_body]
fn fixed_checked_div(a: u128, b: u128) -> (r: Option<u128>)
    ensures
        r == mul_div(a as nat, PRICE_DIV as nat, b as nat),
{
    FixedU128::from_inner(a).checked_div(&FixedU128::from_inner(b)).map(FixedU128::into_inner)
}

/// Calls `FixedU128::checked_mul` on the numbers with inner values `a` and
/// `b`. The product's inner value is `a * b / PRICE_DIV` rounded down; there
/// is none where the product does not fit.
#[verifier::external_body]
fn fixed_checked_mul(a: u128, b: u128) -> (r: Option<u128>)
    ensures
        r == mul_div(a as nat, b as nat, PRICE_DIV as nat),
{
    FixedU128::from_inner(a).checked_mul(&FixedU128::from_inner(b)).map(FixedU128::into_inner)
}

/// Calls `FixedPointNumber::saturating_mul_int` on the number with inner
/// value `a` and the integer `n`. The result is `a * n / PRICE_DIV` rounded
/// down, or the largest amount where that does not fit.
#[verifier::external_body]
fn fixed_saturating_mul_int(a: u128, n: u128) -> (r: u128)
    ensures
        r == mul_div_saturating(a as nat, n as nat, PRICE_DIV as nat),
{
    FixedU128::from_inner(a).saturating_mul_int(n)
}

impl Price {
    /// The price with the inner value `inner`.
    pub fn from_inner(inner: u128) -> (p: Self)
        ensures
            p.inner == inner,
    {
        Price { inner }
    }

    /// The inner value.
    pub fn into_inner(self) -> (inner: u128)
        ensures
            inner == self.inner,
    {
        self.inner
    }

    /// The price one.
    pub open spec fn spec_one() -> Price {
        Price { inner: PRICE_DIV }
    }

    /// The price one.
    #[verifier::when_used_as_spec(spec_one)]
    pub fn one() -> (p: Self)
        ensures
            p == Self::spec_one(),
    {
        Price { inner: PRICE_DIV }
    }

    /// The price zero.
    pub fn zero() -> (p: Self)
        ensures
            p.inner == 0,
    {
        Price { inner: 0 }
    }

    /// Whether this is the price one.
    pub fn is_one(&self) -> (r: bool)
        ensures
            r == (*self == Price::spec_one()),
    {
        self.inner == PRICE_DIV
    }

    /// Whether this is the price zero.
    pub fn is_zero(&self) -> (r: bool)
        ensures
            r == (self.inner == 0),
    {
        self.inner == 0
    }

    /// `self / other` rounded down; nothing where `other` is zero or the
    /// quotient does not fit.
    pub fn checked_div(&self, other: &Price) -> (r: Option<Price>)
        ensures
            r == quotient(*self, *other),
    {
        match fixed_checked_div(self.inner, other.inner) {
            Some(inner) => Some(Price { inner }),
            None => None,
        }
    }

    /// `self * other` rounded down; nothing where the product does not fit.
    pub fn checked_mul(&self, other: &Price) -> (r: Option<Price>)
        ensures
            r == product(*self, *other),
    {
        match fixed_checked_mul(self.inner, other.inner) {
            Some(inner) => Some(Price { inner }),
            None => None,
        }
    }

    /// `self * n` rounded down to a whole amount, held at the largest amount.
    pub fn saturating_mul_int(self, n: Balance) -> (r: Balance)
        ensures
            r == mul_div_saturating(self.inner as nat, n as nat, PRICE_DIV as nat),
    {
        fixed_saturating_mul_int(self.inner, n)
    }
}

/// `a / b` rounded down to eighteen places.
pub open spec fn quotient(a: Price, b: Price) -> Option<Price> {
    match mul_div(a.inner as nat, PRICE_DIV as nat, b.inner as nat) {
        Some(inner) => Some(Price { inner }),
        None => None,
    }
}

/// `a * b` rounded down to eighteen places.
pub open spec fn product(a: Price, b: Price) -> Option<Price> {
    match mul_div(a.inner as nat, b.inner as nat, PRICE_DIV as nat) {
        Some(inner) => Some(Price { inner }),
        None => None,
    }
}

/// What `amount` of an asset priced `from` is worth in an asset priced `to`.
pub open spec fn converted(from: Price, to: Price, amount: Balance) -> Result<Balance, DispatchError> {
    match quotient(from, to) {
        None => Err(DispatchError::Oracle(Error::Math)),
        Some(rate) => Ok(mul_div_saturating(rate.inner as nat, amount as nat, PRICE_DIV as nat)),
    }
}

/// The price that `quotes` gives `id`.
pub open spec fn quoted(quotes: Map<Seq<u8>, Price>, id: Seq<u8>) -> Result<Price, DispatchError> {
    if quotes.contains_key(id) {
        Ok(quotes[id])
    } else {
        Err(DispatchError::Oracle(Error::NoPrice))
    }
}

/// What `amount` of `from` is worth in `to` at the prices `quotes`: both
/// assets need a price.
pub open spec fn exchanged(quotes: Map<Seq<u8>, Price>, from: Seq<u8>, to: Seq<u8>, amount: Balance) -> Result<
    Balance,
    DispatchError,
> {
    if quotes.contains_key(from) && quotes.contains_key(to) {
        converted(quotes[from], quotes[to], amount)
    } else {
        Err(DispatchError::Oracle(Error::NoPrice))
    }
}

/// What `amount` of `asset` is worth in the stable asset; zero where it has
/// no price.
pub open spec fn worth(quotes: Map<Seq<u8>, Price>, stable: Seq<u8>, asset: Seq<u8>, amount: Balance) -> nat {
    match exchanged(quotes, asset, stable, amount) {
        Ok(v) => v as nat,
        Err(_) => 0,
    }
}

/// What the rows of `who` are worth together in the stable asset.
pub open spec fn worth_of_rows(
    quotes: Map<Seq<u8>, Price>,
    stable: Seq<u8>,
    rows: Seq<Row>,
    who: AccountId,
) -> nat
    decreases rows.len(),
{
    if rows.len() == 0 {
        0
    } else {
        worth_of_rows(quotes, stable, rows.drop_last(), who) + if rows.last().who == who {
            worth(quotes, stable, rows.last().asset, rows.last().amount)
        } else {
            0
        }
    }
}

/// What the amounts of `slots` are worth together in the stable asset.
pub open spec fn worth_of_slots(quotes: Map<Seq<u8>, Price>, stable: Seq<u8>, slots: Seq<Slot<Balance>>) -> nat
    decreases slots.len(),
{
    if slots.len() == 0 {
        0
    } else {
        worth_of_slots(quotes, stable, slots.drop_last()) + worth(
            quotes,
            stable,
            slots.last().key,
            slots.last().value,
        )
    }
}

/// Dividing by the price one changes nothing.
pub proof fn lemma_quotient_by_one(p: Price)
    ensures
        quotient(p, Price::spec_one()) == Some(p),
{
    assert((p.inner as nat) * (PRICE_DIV as nat) / (PRICE_DIV as nat) == p.inner) by {
        vstd::arithmetic::mul::lemma_mul_is_commutative(p.inner as int, PRICE_DIV as int);
        vstd::arithmetic::div_mod::lemma_div_multiples_vanish(p.inner as int, PRICE_DIV as int);
    }
}

/// Where the stable asset has the price one, an amount of a priced asset is
/// worth its price times the amount, rounded down and held at the largest
/// amount.
pub proof fn lemma_stable_worth(quotes: Map<Seq<u8>, Price>, stable: Seq<u8>, asset: Seq<u8>, amount: Balance)
    requires
        quotes.contains_key(stable),
        quotes[stable] == Price::spec_one(),
        quotes.contains_key(asset),
    ensures
        exchanged(quotes, asset, stable, amount) == Ok::<Balance, DispatchError>(
            mul_div_saturating(quotes[asset].inner as nat, amount as nat, PRICE_DIV as nat),
        ),
{
    lemma_quotient_by_one(quotes[asset]);
}

/// What a price oracle offers to its consumers.
pub trait PriceGetter {
    /// The price of every asset that has one.
    spec fn quotes(&self) -> Map<Seq<u8>, Price>;

    /// The stable asset, which all prices are relative to.
    spec fn stable(&self) -> Seq<u8>;

    /// The stable asset always has the price one.
    proof fn lemma_stable_is_one(&self)
        ensures
            self.quotes().contains_key(self.stable()),
            self.quotes()[self.stable()] == Price::spec_one(),
    ;

    /// The price of `id`; a price is never zero.
    fn get(&self, id: &AssetId) -> (r: Result<Price, DispatchError>)
        ensures
            r == quoted(self.quotes(), id@),
            r matches Ok(price) ==> price.inner != 0,
    ;

    /// The stable asset.
    fn base_asset(&self) -> (id: AssetId)
        ensures
            id@ == self.stable(),
    ;

    /// What `amount` of `from` is worth in `to`.
    fn exchange(&self, from: &AssetId, to: &AssetId, amount: Balance) -> (r: Result<Balance, DispatchError>)
        ensures
            r == exchanged(self.quotes(), from@, to@, amount),
    ;

    /// What `amount` of `asset` is worth in the stable asset.
    fn to_stable_amount(&self, asset: &AssetId, amount: Balance) -> (r: Result<Balance, DispatchError>)
        ensures
            r == exchanged(self.quotes(), asset@, self.stable(), amount),
    ;
}

} // verus!
