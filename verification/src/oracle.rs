//! The price oracle.

use vstd::prelude::*;
use vstd::bytes::{spec_u32_to_le_bytes, spec_u64_from_le_bytes, spec_u64_to_le_bytes};
use vstd::string::StringSliceAdditionalSpecFns;
use parity_scale_codec::{Decode, Encode};
use sp_runtime::traits::TrailingZeroInput;
use sp_runtime::FixedU128;
use crate::math::{lemma_mul_div_back, lemma_mul_div_bound};
use crate::order::no_repeat;
use crate::primitives::assets::{encoded, names, AssetGetter, AssetId};
use crate::primitives::prices::{Price, PriceGetter, PRICE_DIV};
use crate::primitives::{ensure_root, Balance, BlockNumber, Caller, DispatchError};
use crate::storage::AssetMap;

verus! {

/// What the oracle is set up with.
pub struct Config {
    /// The stable asset, whose price is one by definition.
    pub stable_asset: AssetId,
    /// The step that generated prices are rounded to.
    pub precision: Price,
}

/// The prices that the oracle starts with.
pub struct GenesisConfig {
    pub prices: Vec<(AssetId, Price)>,
}

impl Default for GenesisConfig {
    /// No price.
    fn default() -> (g: Self)
        ensures
            g.prices@.len() == 0,
    {
        GenesisConfig { prices: Vec::new() }
    }
}

/// Whether a price can stand for an asset: it is not zero, and for the
/// stable asset it is one.
pub open spec fn admissible(stable: Seq<u8>, asset: Seq<u8>, price: Price) -> bool {
    price.inner != 0 && (asset == stable ==> price == Price::spec_one())
}

/// The prices after the stable asset is given the price one and the
/// admissible ones of the first `k` of `entries` are recorded in order.
pub open spec fn seeded(entries: Seq<(AssetId, Price)>, k: int, stable: Seq<u8>) -> Map<Seq<u8>, Price>
    decreases k,
{
    if k <= 0 {
        Map::empty().insert(stable, Price::spec_one())
    } else if admissible(stable, entries[k - 1].0@, entries[k - 1].1) {
        seeded(entries, k - 1, stable).insert(entries[k - 1].0@, entries[k - 1].1)
    } else {
        seeded(entries, k - 1, stable)
    }
}

impl GenesisConfig {
    /// The oracle that starts with these prices; none where the precision
    /// is zero. A price that cannot stand for its asset is left out.
    pub fn build(&self, config: Config) -> (r: Option<Pallet>)
        ensures
            config.precision.inner == 0 ==> r is None,
            config.precision.inner != 0 ==> {
                &&& r matches Some(p)
                &&& p.stored() == seeded(self.prices@, self.prices@.len() as int, config.stable_asset@)
                &&& p.stable_id() == config.stable_asset@
                &&& p.precision() == config.precision
            },
    {
        if config.precision.is_zero() {
            return None;
        }
        let mut prices: AssetMap<Price> = AssetMap::new();
        prices.insert(&config.stable_asset, Price::one());
        let mut i: usize = 0;
        while i < self.prices.len()
            invariant
                i <= self.prices.len(),
                prices@ == seeded(self.prices@, i as int, config.stable_asset@),
                forall|k: Seq<u8>| #[trigger] prices@.contains_key(k) ==> prices@[k].inner != 0,
            decreases self.prices.len() - i,
        {
            let price = self.prices[i].1;
            if !price.is_zero() && (self.prices[i].0 != config.stable_asset || price.is_one()) {
                prices.insert(&self.prices[i].0, price);
            }
            i += 1;
        }
        Some(Pallet { config, prices })
    }
}

/// What the oracle reports.
#[derive(Debug, PartialEq, Eq)]
pub enum Event {
    UpdatePrice { asset: AssetId, price: Price },
}

/// Why the oracle refuses.
#[derive(Clone, Copy, Debug, PartialEq, Eq, Structural)]
pub enum Error {
    /// The asset has no price.
    NoPrice,
    /// The stable asset's price is one and cannot be set to anything else.
    SetPriceForStableAsset,
    /// A price is never zero.
    SetZeroPrice,
    /// A price could not be divided by another.
    Math,
}

/// The oracle: the price of each asset that has one.
pub struct Pallet {
    config: Config,
    prices: AssetMap<Price>,
}

impl Pallet {
    /// The stored prices.
    pub closed spec fn stored(&self) -> Map<Seq<u8>, Price> {
        self.prices@
    }

    /// The configured stable asset.
    pub closed spec fn stable_id(&self) -> Seq<u8> {
        self.config.stable_asset@
    }

    /// The configured precision.
    pub closed spec fn precision(&self) -> Price {
        self.config.precision
    }

    /// The precision is not zero, and no stored price is zero.
    #[verifier::type_invariant]
    pub closed spec fn wf(&self) -> bool {
        &&& self.config.precision.inner != 0
        &&& forall|k: Seq<u8>| #[trigger] self.prices@.contains_key(k) ==> self.prices@[k].inner != 0
    }

    /// An oracle without stored prices; none where the precision is zero.
    pub fn new(config: Config) -> (r: Option<Self>)
        ensures
            config.precision.inner == 0 ==> r is None,
            config.precision.inner != 0 ==> {
                &&& r matches Some(p)
                &&& p.stored() == Map::<Seq<u8>, Price>::empty()
                &&& p.stable_id() == config.stable_asset@
                &&& p.precision() == config.precision
                &&& p.wf()
            },
    {
        if config.precision.is_zero() {
            None
        } else {
            Some(Pallet { config, prices: AssetMap::new() })
        }
    }

    /// Records `price` for `asset`. The stable asset takes no price but one,
    /// no asset takes the price zero, and the asset must be registered.
    pub fn set_price<A: AssetGetter>(&mut self, assets: &A, asset: AssetId, price: Price) -> (r: Result<
        Event,
        DispatchError,
    >)
        ensures
            final(self).stable_id() == old(self).stable_id(),
            final(self).precision() == old(self).precision(),
            match set_refusal(old(self).stable_id(), assets, asset@, price) {
                Some(e) => r == Err::<Event, DispatchError>(e) && final(self).stored() == old(
                    self,
                ).stored(),
                None => final(self).stored() == old(self).stored().insert(asset@, price)
                    && reports_update(r, asset@, price),
            },
    {
        proof {
            use_type_invariant(&*self);
        }
        if asset == self.config.stable_asset && !price.is_one() {
            return Err(DispatchError::Oracle(Error::SetPriceForStableAsset));
        }
        if price.is_zero() {
            return Err(DispatchError::Oracle(Error::SetZeroPrice));
        }
        if let Err(e) = assets.check(&asset) {
            return Err(e);
        }
        let mut prices: AssetMap<Price> = AssetMap::new();
        core::mem::swap(&mut self.prices, &mut prices);
        prices.insert(&asset, price);
        core::mem::swap(&mut self.prices, &mut prices);
        Ok(Event::UpdatePrice { asset, price })
    }

    /// Sets the price of `asset` by hand. Only the privileged caller may do so.
    pub fn force_set_price<A: AssetGetter>(
        &mut self,
        assets: &A,
        origin: Caller,
        asset: AssetId,
        price: Price,
    ) -> (r: Result<Event, DispatchError>)
        ensures
            final(self).stable_id() == old(self).stable_id(),
            final(self).precision() == old(self).precision(),
            origin != Caller::Root ==> r == Err::<Event, DispatchError>(DispatchError::BadOrigin)
                && final(self).stored() == old(self).stored(),
            origin == Caller::Root ==> match set_refusal(old(self).stable_id(), assets, asset@, price) {
                Some(e) => r == Err::<Event, DispatchError>(e) && final(self).stored() == old(
                    self,
                ).stored(),
                None => final(self).stored() == old(self).stored().insert(asset@, price)
                    && reports_update(r, asset@, price),
            },
    {
        if let Err(e) = ensure_root(origin) {
            return Err(e);
        }
        self.set_price(assets, asset, price)
    }
}

/// Whether `r` reports that `asset` now has the price `price`.
pub open spec fn reports_update(r: Result<Event, DispatchError>, asset: Seq<u8>, price: Price) -> bool {
    r matches Ok(Event::UpdatePrice { asset: a, price: p }) && a@ == asset && p == price
}

/// Why `price` cannot be recorded for `asset`, if it cannot.
pub open spec fn set_refusal<A: AssetGetter>(
    stable: Seq<u8>,
    assets: &A,
    asset: Seq<u8>,
    price: Price,
) -> Option<DispatchError> {
    if asset == stable && price != Price::spec_one() {
        Some(DispatchError::Oracle(Error::SetPriceForStableAsset))
    } else if price.inner == 0 {
        Some(DispatchError::Oracle(Error::SetZeroPrice))
    } else if !assets.registered().contains_key(asset) {
        Some(assets.not_found())
    } else {
        None
    }
}

impl PriceGetter for Pallet {
    /// The stored prices, with the price one for the stable asset.
    open spec fn quotes(&self) -> Map<Seq<u8>, Price> {
        self.stored().insert(self.stable_id(), Price::spec_one())
    }

    open spec fn stable(&self) -> Seq<u8> {
        self.stable_id()
    }

    proof fn lemma_stable_is_one(&self) {
    }

    fn get(&self, id: &AssetId) -> (r: Result<Price, DispatchError>) {
        proof {
            use_type_invariant(self);
        }
        if *id == self.config.stable_asset {
            Ok(Price::one())
        } else {
            match self.prices.get(id) {
                Some(p) => Ok(p),
                None => Err(DispatchError::Oracle(Error::NoPrice)),
            }
        }
    }

    fn base_asset(&self) -> (id: AssetId) {
        self.config.stable_asset.clone()
    }

    fn exchange(&self, from: &AssetId, to: &AssetId, amount: Balance) -> (r: Result<Balance, DispatchError>) {
        let from_price = match self.get(from) {
            Ok(p) => p,
            Err(e) => {
                return Err(e);
            },
        };
        let to_price = match self.get(to) {
            Ok(p) => p,
            Err(e) => {
                return Err(e);
            },
        };
        match from_price.checked_div(&to_price) {
            Some(rate) => Ok(rate.saturating_mul_int(amount)),
            None => Err(DispatchError::Oracle(Error::Math)),
        }
    }

    fn to_stable_amount(&self, asset: &AssetId, amount: Balance) -> (r: Result<Balance, DispatchError>) {
        let stable = self.base_asset();
        self.exchange(asset, &stable, amount)
    }
}

/// Every how many cycles prices are generated.
pub const GENERATION_PERIOD: u64 = 5;

/// What the generation of prices weighs.
pub const GENERATION_WEIGHT: u64 = 10_000;

/// A source of verifiable randomness.
pub trait Randomness {
    /// Whether the source may answer `draw` when it is asked for `subject`.
    /// A source that says nothing of its draws admits every answer.
    open spec fn answers(&self, subject: Seq<u8>, draw: Seq<u8>) -> bool {
        true
    }

    /// Thirty-two bytes drawn for `subject`.
    fn random(&self, subject: &[u8]) -> (draw: [u8; 32])
        ensures
            self.answers(subject@, draw@),
    ;
}

/// The subject of the draw number `i` for `asset` at the cycle `n`, under
/// the domain tag `tag`: their encodings in a row.
pub open spec fn seed(tag: Seq<u8>, n: BlockNumber, asset: Seq<u8>, i: u32) -> Seq<u8> {
    encoded(tag) + spec_u64_to_le_bytes(n) + encoded(asset) + spec_u32_to_le_bytes(i)
}

/// Calls `Encode::encode` of parity-scale-codec on `((tag, n, asset), i)`.
/// The encoding of a tuple is that of its parts in a row: the tag and the
/// asset as their compact length and their bytes, the numbers in
/// little-endian bytes.
#[verifier::external_body]
fn seed_bytes(tag: &str, n: BlockNumber, asset: &Vec<u8>, i: u32) -> (r: Vec<u8>)
    requires
        tag.spec_bytes().len() < 64,
        asset@.len() < 64,
    ensures
        r@ == seed(tag.spec_bytes(), n, asset@, i),
{
    ((tag, n, asset), i).encode()
}

/// Calls `Decode::decode` of `FixedU128` on eight bytes followed by zeroes
/// (sp_runtime's `TrailingZeroInput`). The inner value is read in
/// little-endian order, so it is the number that the eight bytes spell.
#[verifier::external_body]
fn decode_fixed(bytes: &Vec<u8>) -> (r: Option<u128>)
    requires
        bytes@.len() == 8,
    ensures
        r == Some(spec_u64_from_le_bytes(bytes@) as u128),
{
    FixedU128::decode(&mut TrailingZeroInput::new(&bytes[..])).ok().map(FixedU128::into_inner)
}

/// The eight bytes that a price is read from: the first eight of the draw,
/// the last of them without its upper half.
pub open spec fn draw_bytes(draw: Seq<u8>) -> Seq<u8> {
    draw.subrange(0, 7).push(draw[7] & 0x0f)
}

/// The inner value of the fraction that a draw spells.
pub open spec fn delta_of(draw: Seq<u8>) -> u128 {
    spec_u64_from_le_bytes(draw_bytes(draw)) as u128
}

/// `delta` multiplied by the precision and divided by it again, each
/// rounded down.
pub open spec fn rounded(delta: u128, precision: u128) -> nat {
    ((delta as nat) * (precision as nat) / (PRICE_DIV as nat)) * (PRICE_DIV as nat) / (
    precision as nat)
}

/// The price that a draw gives: one plus the fraction it spells, rounded by
/// the precision; none where the fraction is not below one.
pub open spec fn drawn_price(draw: Seq<u8>, precision: Price) -> Option<Price> {
    if delta_of(draw) < PRICE_DIV {
        Some(Price { inner: (PRICE_DIV + rounded(delta_of(draw), precision.inner)) as u128 })
    } else {
        None
    }
}

/// A fraction below one stays below one when it is rounded by a precision.
pub proof fn lemma_rounded(delta: u128, precision: u128)
    requires
        delta < PRICE_DIV,
        precision != 0,
    ensures
        (delta as nat) * (precision as nat) / (PRICE_DIV as nat) <= precision,
        rounded(delta, precision) <= delta,
{
    lemma_mul_div_bound(delta as nat, precision as nat, PRICE_DIV as nat);
    lemma_mul_div_back(delta as nat, precision as nat, PRICE_DIV as nat);
}

/// The bytes of the domain tag under which prices are drawn.
pub open spec fn domain_tag() -> Seq<u8> {
    "pallet-oracle".spec_bytes()
}

/// Whether `source` may answer `draw` for the counter `i` of `asset` at the
/// cycle `n`, and that draw gives `price` at the precision `precision`.
pub open spec fn draws_price<R: Randomness>(
    source: &R,
    precision: Price,
    n: BlockNumber,
    asset: Seq<u8>,
    i: int,
    draw: Seq<u8>,
    price: Option<Price>,
) -> bool {
    &&& 0 <= i <= u32::MAX
    &&& source.answers(seed(domain_tag(), n, asset, i as u32), draw)
    &&& drawn_price(draw, precision) == price
}

/// Whether the counter `i` was tried and its draw gave no price.
pub open spec fn rejects_at<R: Randomness>(
    source: &R,
    precision: Price,
    n: BlockNumber,
    asset: Seq<u8>,
    i: int,
) -> bool {
    exists|draw: Seq<u8>| #[trigger] draws_price(source, precision, n, asset, i, draw, None)
}

/// Whether every counter below `i` was tried and its draw gave no price.
pub open spec fn passed_over<R: Randomness>(
    source: &R,
    precision: Price,
    n: BlockNumber,
    asset: Seq<u8>,
    i: int,
) -> bool {
    forall|j: int| 0 <= j < i ==> #[trigger] rejects_at(source, precision, n, asset, j)
}

/// Whether `r` is what the generation of a price for `asset` at the cycle
/// `n` gives: the price of the draw for the first counter whose draw gives
/// one, or nothing where the draw of every counter gives none.
pub open spec fn generated<R: Randomness>(
    source: &R,
    precision: Price,
    n: BlockNumber,
    asset: Seq<u8>,
    r: Option<Price>,
) -> bool {
    match r {
        Some(price) => exists|i: int, draw: Seq<u8>|
            passed_over(source, precision, n, asset, i) && #[trigger] draws_price(
                source,
                precision,
                n,
                asset,
                i,
                draw,
                Some(price),
            ),
        None => passed_over(source, precision, n, asset, u32::MAX + 1),
    }
}

/// Whether `a` has in `after` the price, or the lack of one, that it had in
/// `before`.
pub open spec fn priced_as(before: Map<Seq<u8>, Price>, after: Map<Seq<u8>, Price>, a: Seq<u8>) -> bool {
    after.contains_key(a) == before.contains_key(a) && (after.contains_key(a) ==> after[a]
        == before[a])
}

/// Whether the price of `a` in `after` is the one that the generation for
/// `a` at the cycle `n` gives, a price from one up to two; where the
/// generation gives none, `a` is priced as in `before`.
pub open spec fn regenerated<R: Randomness>(
    source: &R,
    precision: Price,
    n: BlockNumber,
    before: Map<Seq<u8>, Price>,
    after: Map<Seq<u8>, Price>,
    a: Seq<u8>,
) -> bool {
    exists|r: Option<Price>|
        #[trigger] generated(source, precision, n, a, r) && match r {
            Some(price) => after.contains_key(a) && after[a] == price && PRICE_DIV <= price.inner
                < 2 * PRICE_DIV,
            None => priced_as(before, after, a),
        }
}

/// What a cycle of generation does to the price of `a`: a registered asset
/// other than the stable one gets its generated price, every other asset
/// keeps what it had.
pub open spec fn renewed<A: AssetGetter, R: Randomness>(
    assets: &A,
    source: &R,
    precision: Price,
    n: BlockNumber,
    stable: Seq<u8>,
    before: Map<Seq<u8>, Price>,
    after: Map<Seq<u8>, Price>,
    a: Seq<u8>,
) -> bool {
    if assets.registered().contains_key(a) && a != stable {
        regenerated(source, precision, n, before, after, a)
    } else {
        priced_as(before, after, a)
    }
}

/// What the generation has done to the price of `a` once the assets `done`
/// have had their turn.
pub open spec fn renewed_so_far<R: Randomness>(
    done: Seq<Seq<u8>>,
    source: &R,
    precision: Price,
    n: BlockNumber,
    stable: Seq<u8>,
    before: Map<Seq<u8>, Price>,
    after: Map<Seq<u8>, Price>,
    a: Seq<u8>,
) -> bool {
    if done.contains(a) && a != stable {
        regenerated(source, precision, n, before, after, a)
    } else {
        priced_as(before, after, a)
    }
}

impl Pallet {
    /// The price that `draw` gives at the configured precision.
    pub fn price_from_draw(&self, draw: &[u8; 32]) -> (r: Option<Price>)
        ensures
            r == drawn_price(draw@, self.precision()),
            r matches Some(p) ==> PRICE_DIV <= p.inner < 2 * PRICE_DIV,
    {
        proof {
            use_type_invariant(self);
        }
        let mut bytes: Vec<u8> = Vec::new();
        let mut i: usize = 0;
        while i < 7
            invariant
                i <= 7,
                bytes@ == draw@.subrange(0, i as int),
            decreases 7 - i,
        {
            bytes.push(draw[i]);
            assert(draw@.subrange(0, i + 1) == draw@.subrange(0, i as int).push(draw@[i as int]));
            i += 1;
        }
        bytes.push(draw[7] & 0x0f);
        assert(bytes@ == draw_bytes(draw@));
        let delta = match decode_fixed(&bytes) {
            Some(inner) => Price::from_inner(inner),
            None => {
                return None;
            },
        };
        if delta.inner >= PRICE_DIV {
            return None;
        }
        let precision = self.config.precision;
        proof {
            lemma_rounded(delta.inner, precision.inner);
        }
        let scaled = match delta.checked_mul(&precision) {
            Some(scaled) => scaled,
            None => {
                return None;
            },
        };
        let back = match scaled.checked_div(&precision) {
            Some(back) => back,
            None => {
                return None;
            },
        };
        Some(Price::from_inner(PRICE_DIV + back.inner))
    }

    /// A price for `asset` at the cycle `n`, from one up to two. Asks `rng`
    /// for a draw under the domain tag, the cycle, the asset and a counter
    /// that goes up from zero, and gives the price of the first draw that
    /// spells one. None where the draw of no counter does.
    pub fn gen_price<R: Randomness>(&self, rng: &R, n: BlockNumber, asset: &AssetId) -> (r: Option<Price>)
        ensures
            generated(rng, self.precision(), n, asset@, r),
            r matches Some(p) ==> PRICE_DIV <= p.inner < 2 * PRICE_DIV,
    {
        proof {
            reveal_strlit("pallet-oracle");
            vstd::string::is_ascii_spec_bytes("pallet-oracle");
        }
        let mut i: u32 = 0;
        loop
            invariant
                "pallet-oracle".spec_bytes().len() < 64,
                passed_over(rng, self.precision(), n, asset@, i as int),
            decreases u32::MAX - i,
        {
            let subject = seed_bytes("pallet-oracle", n, asset.as_bytes(), i);
            let draw = rng.random(subject.as_slice());
            let found = self.price_from_draw(&draw);
            assert(draws_price(rng, self.precision(), n, asset@, i as int, draw@, found));
            if let Some(price) = found {
                return Some(price);
            }
            assert(rejects_at(rng, self.precision(), n, asset@, i as int));
            if i == u32::MAX {
                return None;
            }
            i += 1;
        }
    }

    /// The work at the start of the cycle `n`. Every fifth cycle, each
    /// registered asset but the stable one gets its generated price, in
    /// canonical order; an asset for which no draw gives a price keeps what
    /// it had, and so does every other asset. On other cycles nothing
    /// changes. Returns the weight of the work.
    pub fn on_initialize<A: AssetGetter, R: Randomness>(&mut self, assets: &A, rng: &R, n: BlockNumber) -> (w:
        u64)
        ensures
            final(self).stable_id() == old(self).stable_id(),
            final(self).precision() == old(self).precision(),
            n % GENERATION_PERIOD != 0 ==> w == 0 && final(self).stored() == old(self).stored(),
            n % GENERATION_PERIOD == 0 ==> w == GENERATION_WEIGHT && forall|a: Seq<u8>| #[trigger]
                renewed(
                    assets,
                    rng,
                    old(self).precision(),
                    n,
                    old(self).stable_id(),
                    old(self).stored(),
                    final(self).stored(),
                    a,
                ),
    {
        if n % GENERATION_PERIOD != 0 {
            return 0;
        }
        let ids = assets.get_all_in_ord();
        let ghost listed = names(ids@);
        let ghost before = self.stored();
        let ghost stable = self.stable_id();
        let ghost precision = self.precision();
        let mut i: usize = 0;
        assert(listed.take(0) =~= Seq::<Seq<u8>>::empty());
        while i < ids.len()
            invariant
                i <= ids.len(),
                listed == names(ids@),
                no_repeat(listed),
                forall|a: Seq<u8>| #[trigger] listed.contains(a) <==> assets.registered().contains_key(a),
                self.stable_id() == stable,
                self.precision() == precision,
                forall|a: Seq<u8>| #[trigger]
                    renewed_so_far(
                        listed.take(i as int),
                        rng,
                        precision,
                        n,
                        stable,
                        before,
                        self.stored(),
                        a,
                    ),
            decreases ids.len() - i,
        {
            let asset = ids[i].clone();
            let ghost x = listed[i as int];
            let ghost earlier = listed.take(i as int);
            let ghost later = listed.take(i + 1);
            let ghost mid = self.stored();
            proof {
                assert(later == earlier.push(x));
                assert(!earlier.contains(x)) by {
                    if earlier.contains(x) {
                        let j = choose|j: int| 0 <= j < earlier.len() && earlier[j] == x;
                        assert(listed[j] != listed[i as int]);
                    }
                }
                assert(listed.contains(x));
                assert(renewed_so_far(earlier, rng, precision, n, stable, before, mid, x));
            }
            if asset != self.config.stable_asset {
                let found = self.gen_price(rng, n, &asset);
                if let Some(price) = found {
                    let set = self.set_price(assets, asset, price);
                    assert(set is Ok);
                }
                assert(regenerated(rng, precision, n, before, self.stored(), x)) by {
                    assert(generated(rng, precision, n, x, found));
                }
            }
            proof {
                let after = self.stored();
                assert forall|a: Seq<u8>| #[trigger]
                    renewed_so_far(later, rng, precision, n, stable, before, after, a) by {
                    assert(renewed_so_far(earlier, rng, precision, n, stable, before, mid, a));
                    if a != x {
                        assert(later.contains(a) == earlier.contains(a)) by {
                            if later.contains(a) {
                                let j = choose|j: int| 0 <= j < later.len() && later[j] == a;
                                assert(earlier[j] == a);
                            }
                            if earlier.contains(a) {
                                let j = choose|j: int| 0 <= j < earlier.len() && earlier[j] == a;
                                assert(later[j] == a);
                            }
                        }
                        assert(priced_as(mid, after, a));
                        if earlier.contains(a) && a != stable {
                            let r = choose|r: Option<Price>|
                                #[trigger] generated(rng, precision, n, a, r) && match r {
                                    Some(price) => mid.contains_key(a) && mid[a] == price
                                        && PRICE_DIV <= price.inner < 2 * PRICE_DIV,
                                    None => priced_as(before, mid, a),
                                };
                            assert(generated(rng, precision, n, a, r));
                        }
                    } else {
                        assert(later[i as int] == x);
                    }
                }
            }
            i += 1;
        }
        proof {
            assert(listed.take(i as int) == listed);
            assert forall|a: Seq<u8>| #[trigger]
                renewed(assets, rng, precision, n, stable, before, self.stored(), a) by {
                assert(renewed_so_far(listed, rng, precision, n, stable, before, self.stored(), a));
            }
        }
        GENERATION_WEIGHT
    }
}

} // verus!
