use asset_ledger::assets;
use asset_ledger::oracle::{Config, Error, Event, GenesisConfig, Pallet, Randomness};
use asset_ledger::primitives::assets::{tok, usd, AssetData, AssetId};
use asset_ledger::primitives::prices::{Price, PriceGetter, PRICE_DIV};
use asset_ledger::primitives::{Caller, DispatchError};

const ONE: u128 = 1_000_000_000_000_000_000;

fn registry() -> assets::Pallet {
    let mut registry = assets::Pallet::new(assets::Config { main_asset: tok() });
    for name in ["coin", "usd", "gold"] {
        registry
            .create(&mut (), Caller::Root, name.as_bytes().to_vec(), AssetData { decimals: 0 })
            .unwrap();
    }
    registry
}

fn oracle() -> Pallet {
    Pallet::new(Config { stable_asset: usd(), precision: Price::from_inner(ONE / 100) }).unwrap()
}

fn gold() -> AssetId {
    AssetId::from_utf8("gold").unwrap()
}

/// Always draws the same bytes.
struct Fixed([u8; 32]);

impl Randomness for Fixed {
    fn random(&self, _subject: &[u8]) -> [u8; 32] {
        self.0
    }
}

/// Draws a fraction above one until the counter reaches `ready`, and checks
/// the subject of every draw.
struct Counting {
    cycle: u64,
    asset: Vec<u8>,
    ready: u32,
}

impl Randomness for Counting {
    fn random(&self, subject: &[u8]) -> [u8; 32] {
        let mut head = vec![13u8 * 4];
        head.extend_from_slice(b"pallet-oracle");
        head.extend_from_slice(&self.cycle.to_le_bytes());
        head.push((self.asset.len() as u8) * 4);
        head.extend_from_slice(&self.asset);
        assert_eq!(subject.len(), head.len() + 4);
        assert_eq!(&subject[..head.len()], &head[..]);
        let mut counter = [0u8; 4];
        counter.copy_from_slice(&subject[head.len()..]);
        let counter = u32::from_le_bytes(counter);
        let mut draw = [0xffu8; 32];
        if counter >= self.ready {
            draw[..8].copy_from_slice(&(ONE as u64 / 4 + counter as u64).to_le_bytes());
        }
        draw
    }
}

fn draw_of(value: u64) -> [u8; 32] {
    let mut draw = [0xabu8; 32];
    draw[..8].copy_from_slice(&value.to_le_bytes());
    draw
}

#[test]
fn fixed_point_arithmetic() {
    assert_eq!(PRICE_DIV, ONE);
    assert_eq!(Price::one().into_inner(), ONE);
    assert!(Price::one().is_one());
    assert!(!Price::from_inner(1).is_one());
    assert!(Price::zero().is_zero());
    let three = Price::from_inner(3 * ONE);
    let two = Price::from_inner(2 * ONE);
    assert_eq!(three.checked_div(&two), Some(Price::from_inner(ONE + ONE / 2)));
    assert_eq!(Price::one().checked_div(&three), Some(Price::from_inner(333_333_333_333_333_333)));
    assert_eq!(three.checked_div(&Price::zero()), None);
    assert_eq!(Price::from_inner(u128::MAX).checked_div(&Price::from_inner(1)), None);
    assert_eq!(three.checked_mul(&two), Some(Price::from_inner(6 * ONE)));
    assert_eq!(
        Price::from_inner(ONE / 3).checked_mul(&Price::from_inner(ONE / 3)),
        Some(Price::from_inner(111_111_111_111_111_110))
    );
    assert_eq!(Price::from_inner(u128::MAX).checked_mul(&two), None);
    assert_eq!(Price::from_inner(ONE + ONE / 2).saturating_mul_int(5), 7);
    assert_eq!(three.saturating_mul_int(u128::MAX), u128::MAX);
    assert_eq!(Price::zero().saturating_mul_int(9), 0);
}

#[test]
fn oracle_needs_a_precision() {
    assert!(Pallet::new(Config { stable_asset: usd(), precision: Price::zero() }).is_none());
    assert!(GenesisConfig::default()
        .build(Config { stable_asset: usd(), precision: Price::zero() })
        .is_none());
}

#[test]
fn stable_price_is_one_and_cannot_be_overridden() {
    let registry = registry();
    let mut oracle = oracle();
    assert_eq!(oracle.get(&usd()), Ok(Price::one()));
    assert_eq!(oracle.base_asset(), usd());
    for inner in [0, 1, ONE - 1, ONE + 1, 2 * ONE] {
        assert_eq!(
            oracle.force_set_price(&registry, Caller::Root, usd(), Price::from_inner(inner)),
            Err(DispatchError::Oracle(Error::SetPriceForStableAsset))
        );
        assert_eq!(oracle.get(&usd()), Ok(Price::one()));
    }
    assert_eq!(
        oracle.force_set_price(&registry, Caller::Root, usd(), Price::one()),
        Ok(Event::UpdatePrice { asset: usd(), price: Price::one() })
    );
    assert_eq!(oracle.get(&usd()), Ok(Price::one()));
}

#[test]
fn set_price_checks_in_order() {
    let registry = registry();
    let mut oracle = oracle();
    let two = Price::from_inner(2 * ONE);
    assert_eq!(
        oracle.force_set_price(&registry, Caller::Signed(1), tok(), two),
        Err(DispatchError::BadOrigin)
    );
    assert_eq!(
        oracle.force_set_price(&registry, Caller::Root, tok(), Price::zero()),
        Err(DispatchError::Oracle(Error::SetZeroPrice))
    );
    let unknown = AssetId::from_utf8("nope").unwrap();
    assert_eq!(
        oracle.force_set_price(&registry, Caller::Root, unknown.clone(), two),
        Err(DispatchError::Assets(assets::Error::NotFound))
    );
    assert_eq!(oracle.get(&unknown), Err(DispatchError::Oracle(Error::NoPrice)));
    assert_eq!(oracle.get(&tok()), Err(DispatchError::Oracle(Error::NoPrice)));
    assert_eq!(
        oracle.set_price(&registry, tok(), two),
        Ok(Event::UpdatePrice { asset: tok(), price: two })
    );
    assert_eq!(oracle.get(&tok()), Ok(two));
}

#[test]
fn exchange_multiplies_by_the_ratio_of_prices() {
    let registry = registry();
    let mut oracle = oracle();
    oracle.set_price(&registry, tok(), Price::from_inner(3 * ONE)).unwrap();
    oracle.set_price(&registry, gold(), Price::from_inner(2 * ONE)).unwrap();
    assert_eq!(oracle.exchange(&tok(), &gold(), 100), Ok(150));
    assert_eq!(oracle.exchange(&gold(), &tok(), 100), Ok(66));
    assert_eq!(oracle.to_stable_amount(&tok(), 7), Ok(21));
    assert_eq!(oracle.exchange(&usd(), &tok(), 10), Ok(3));
    assert_eq!(oracle.exchange(&tok(), &gold(), u128::MAX), Ok(u128::MAX));
    let unknown = AssetId::from_utf8("nope").unwrap();
    assert_eq!(oracle.exchange(&unknown, &tok(), 1), Err(DispatchError::Oracle(Error::NoPrice)));
    assert_eq!(oracle.exchange(&tok(), &unknown, 1), Err(DispatchError::Oracle(Error::NoPrice)));
    assert_eq!(oracle.to_stable_amount(&unknown, 1), Err(DispatchError::Oracle(Error::NoPrice)));
}

#[test]
fn exchange_reports_a_quotient_that_does_not_fit() {
    let registry = registry();
    let mut oracle = oracle();
    oracle.set_price(&registry, tok(), Price::from_inner(u128::MAX)).unwrap();
    oracle.set_price(&registry, gold(), Price::from_inner(1)).unwrap();
    assert_eq!(oracle.exchange(&tok(), &gold(), 1), Err(DispatchError::Oracle(Error::Math)));
}

#[test]
fn a_draw_spells_a_price_between_one_and_two() {
    let oracle = oracle();
    assert_eq!(oracle.price_from_draw(&draw_of(0)), Some(Price::one()));
    assert_eq!(
        oracle.price_from_draw(&draw_of(ONE as u64 / 2)),
        Some(Price::from_inner(ONE + ONE / 2))
    );
    // the upper half of the eighth byte does not count
    assert_eq!(
        oracle.price_from_draw(&draw_of(ONE as u64 / 2 | 0xf000_0000_0000_0000)),
        Some(Price::from_inner(ONE + ONE / 2))
    );
    // rounded down to a multiple of the precision's grain
    assert_eq!(
        oracle.price_from_draw(&draw_of(123_456_789_012_345_678)),
        Some(Price::from_inner(ONE + 123_456_789_012_345_600))
    );
    assert_eq!(
        oracle.price_from_draw(&draw_of(ONE as u64 - 1)),
        Some(Price::from_inner(ONE + 999_999_999_999_999_900))
    );
    assert_eq!(oracle.price_from_draw(&draw_of(ONE as u64)), None);
    assert_eq!(oracle.price_from_draw(&[0xff; 32]), None);
}

#[test]
fn generation_redraws_with_a_counter() {
    let oracle = oracle();
    let rng = Counting { cycle: 35, asset: b"coin".to_vec(), ready: 3 };
    assert_eq!(
        oracle.gen_price(&rng, 35, &tok()),
        Some(Price::from_inner(ONE + ONE / 4))
    );
    let at_once = Counting { cycle: 0, asset: b"gold".to_vec(), ready: 0 };
    assert_eq!(oracle.gen_price(&at_once, 0, &gold()), Some(Price::from_inner(ONE + ONE / 4)));
}

#[test]
fn every_fifth_cycle_generates_prices() {
    let registry = registry();
    let mut oracle = oracle();
    let rng = Fixed(draw_of(ONE as u64 / 2));
    assert_eq!(oracle.on_initialize(&registry, &rng, 4), 0);
    assert_eq!(oracle.get(&tok()), Err(DispatchError::Oracle(Error::NoPrice)));
    assert_eq!(oracle.on_initialize(&registry, &rng, 10), 10_000);
    let expected = Price::from_inner(ONE + ONE / 2);
    assert_eq!(oracle.get(&tok()), Ok(expected));
    assert_eq!(oracle.get(&gold()), Ok(expected));
    assert_eq!(oracle.get(&usd()), Ok(Price::one()));
    assert_eq!(oracle.on_initialize(&registry, &rng, 0), 10_000);
}

#[test]
fn generation_sets_each_asset_its_own_price() {
    let registry = registry();
    let mut oracle = oracle();
    // a price that was set by hand, and one of an asset that is not registered any more
    oracle.set_price(&registry, tok(), Price::from_inner(7 * ONE)).unwrap();
    let mut shrunk = registry;
    oracle.set_price(&shrunk, gold(), Price::from_inner(9 * ONE)).unwrap();
    shrunk.remove(Caller::Root, b"gold".to_vec()).unwrap();
    // the draw depends on the counter only from the third draw on
    let rng = Counting { cycle: 15, asset: b"coin".to_vec(), ready: 2 };
    assert_eq!(oracle.on_initialize(&shrunk, &rng, 15), 10_000);
    assert_eq!(oracle.get(&tok()), Ok(Price::from_inner(ONE + ONE / 4)));
    assert_eq!(oracle.get(&gold()), Ok(Price::from_inner(9 * ONE)));
    assert_eq!(oracle.get(&usd()), Ok(Price::one()));
}

#[test]
fn genesis_records_admissible_prices() {
    let genesis = GenesisConfig {
        prices: vec![
            (tok(), Price::from_inner(2 * ONE)),
            (gold(), Price::zero()),
            (usd(), Price::from_inner(5 * ONE)),
        ],
    };
    let oracle =
        genesis.build(Config { stable_asset: usd(), precision: Price::from_inner(1) }).unwrap();
    assert_eq!(oracle.get(&tok()), Ok(Price::from_inner(2 * ONE)));
    assert_eq!(oracle.get(&gold()), Err(DispatchError::Oracle(Error::NoPrice)));
    assert_eq!(oracle.get(&usd()), Ok(Price::one()));
}
