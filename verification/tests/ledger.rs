use asset_ledger::assets;
use asset_ledger::balances::{Config, Error, Event, GenesisConfig, Pallet};
use asset_ledger::oracle;
use asset_ledger::primitives::assets::{tok, usd, AssetData, AssetGetter, AssetId, OnAssetCreate};
use asset_ledger::primitives::currency::Currency;
use asset_ledger::primitives::prices::Price;
use asset_ledger::primitives::{
    Caller, DispatchError, InvalidTransaction, TransactionValidityError,
};

const TREASURY: u64 = 0;
const A: u64 = 1;
const B: u64 = 2;
const ONE: u128 = 1_000_000_000_000_000_000;

fn setup_with(issuance: u128) -> (assets::Pallet, Pallet) {
    let mut registry = assets::Pallet::new(assets::Config { main_asset: tok() });
    let mut ledger = Pallet::new(Config { treasury: TREASURY, initial_asset_issuance: issuance });
    for name in ["coin", "usd", "gold"] {
        let created = registry.create(
            &mut ledger,
            Caller::Root,
            name.as_bytes().to_vec(),
            AssetData { decimals: 2 },
        );
        assert!(created.is_ok());
    }
    (registry, ledger)
}

fn setup() -> (assets::Pallet, Pallet) {
    setup_with(1_000_000)
}

fn gold() -> AssetId {
    AssetId::from_utf8("gold").unwrap()
}

fn sum_of(ledger: &Pallet, asset: &AssetId) -> u128 {
    ledger.iter_balances().iter().filter(|(_, a, _)| a == asset).map(|(_, _, b)| *b).sum()
}

#[test]
fn mint_transfer_burn_scenario() {
    let (registry, mut ledger) = setup();
    let coin = tok();
    assert_eq!(registry.get(&coin), Ok(AssetData { decimals: 2 }));
    assert_eq!(ledger.balance(&TREASURY, &coin), 1_000_000);

    assert!(Currency::mint(&mut ledger, &registry, &A, &coin, 100).is_ok());
    assert_eq!(ledger.balance(&TREASURY, &coin), 999_900);
    assert_eq!(ledger.balance(&A, &coin), 100);

    assert!(Currency::transfer(&mut ledger, &registry, &A, &B, &coin, 40).is_ok());
    assert_eq!(ledger.balance(&A, &coin), 60);
    assert_eq!(ledger.balance(&B, &coin), 40);

    assert!(Currency::burn(&mut ledger, &registry, &B, &coin, 10).is_ok());
    assert_eq!(ledger.balance(&B, &coin), 30);
    assert_eq!(ledger.balance(&TREASURY, &coin), 999_910);
    assert_eq!(sum_of(&ledger, &coin), 1_000_000);
}

#[test]
fn dispatchables_check_the_caller_and_report() {
    let (registry, mut ledger) = setup();
    assert_eq!(
        ledger.mint(&registry, Caller::Signed(A), A, tok(), 5),
        Err(DispatchError::BadOrigin)
    );
    assert_eq!(ledger.burn(&registry, Caller::Unsigned, A, tok(), 5), Err(DispatchError::BadOrigin));
    assert_eq!(ledger.transfer(&registry, Caller::Root, B, tok(), 5), Err(DispatchError::BadOrigin));
    assert_eq!(
        ledger.transfer(&registry, Caller::Unsigned, B, tok(), 5),
        Err(DispatchError::BadOrigin)
    );
    assert_eq!(
        ledger.mint(&registry, Caller::Root, A, tok(), 50),
        Ok(Event::Minted { who: A, asset: tok(), amount: 50 })
    );
    assert_eq!(
        ledger.transfer(&registry, Caller::Signed(A), B, tok(), 20),
        Ok(Event::Transfer { from: A, to: B, asset: tok(), amount: 20 })
    );
    assert_eq!(
        ledger.burn(&registry, Caller::Root, B, tok(), 20),
        Ok(Event::Burnt { who: B, asset: tok(), amount: 20 })
    );
    assert_eq!(ledger.balance(&A, &tok()), 30);
    assert_eq!(ledger.balance(&B, &tok()), 0);
    assert_eq!(ledger.balance(&TREASURY, &tok()), 999_970);
}

#[test]
fn mint_fails_without_changing_anything() {
    let (registry, mut ledger) = setup();
    let unknown = AssetId::from_utf8("nope").unwrap();
    assert_eq!(
        Currency::mint(&mut ledger, &registry, &A, &unknown, 1),
        Err(DispatchError::Assets(assets::Error::NotFound))
    );
    assert_eq!(
        Currency::mint(&mut ledger, &registry, &A, &tok(), 1_000_001),
        Err(DispatchError::Balances(Error::InsufficientTreasury))
    );
    assert_eq!(ledger.balance(&TREASURY, &tok()), 1_000_000);
    assert_eq!(ledger.balance(&A, &tok()), 0);
    assert_eq!(ledger.iter_balances().len(), 3);
}

#[test]
fn overflow_is_an_error_and_atomic() {
    let (registry, mut ledger) = setup_with(u128::MAX);
    // gold: the treasury holds everything; give one unit to A, then try to
    // send it back on top of a treasury that was refilled
    assert!(Currency::mint(&mut ledger, &registry, &A, &gold(), 1).is_ok());
    ledger.on_asset_create(&gold());
    assert_eq!(ledger.balance(&TREASURY, &gold()), u128::MAX);
    assert_eq!(
        Currency::burn(&mut ledger, &registry, &A, &gold(), 1),
        Err(DispatchError::Balances(Error::Overflow))
    );
    assert_eq!(
        Currency::transfer(&mut ledger, &registry, &A, &TREASURY, &gold(), 1),
        Err(DispatchError::Balances(Error::Overflow))
    );
    assert_eq!(ledger.balance(&A, &gold()), 1);
    assert_eq!(ledger.balance(&TREASURY, &gold()), u128::MAX);
    assert_eq!(
        Currency::mint(&mut ledger, &registry, &A, &gold(), u128::MAX),
        Err(DispatchError::Balances(Error::Overflow))
    );
    assert_eq!(ledger.balance(&TREASURY, &gold()), u128::MAX);
}

#[test]
fn burn_and_transfer_never_go_below_zero() {
    let (registry, mut ledger) = setup();
    Currency::mint(&mut ledger, &registry, &A, &tok(), 10).unwrap();
    assert_eq!(
        Currency::burn(&mut ledger, &registry, &A, &tok(), 11),
        Err(DispatchError::Balances(Error::InsufficientFunds))
    );
    assert_eq!(
        Currency::transfer(&mut ledger, &registry, &A, &B, &tok(), 11),
        Err(DispatchError::Balances(Error::InsufficientFunds))
    );
    assert_eq!(
        Currency::transfer(&mut ledger, &registry, &B, &A, &tok(), 1),
        Err(DispatchError::Balances(Error::InsufficientFunds))
    );
    assert_eq!(ledger.balance(&A, &tok()), 10);
    assert_eq!(ledger.balance(&B, &tok()), 0);
    assert!(Currency::burn(&mut ledger, &registry, &A, &tok(), 10).is_ok());
    assert_eq!(ledger.balance(&A, &tok()), 0);
}

#[test]
fn mint_then_burn_restores_balances() {
    let (registry, mut ledger) = setup();
    Currency::mint(&mut ledger, &registry, &A, &tok(), 7).unwrap();
    let before = ledger.iter_balances();
    Currency::mint(&mut ledger, &registry, &A, &tok(), 123).unwrap();
    Currency::burn(&mut ledger, &registry, &A, &tok(), 123).unwrap();
    assert_eq!(ledger.iter_balances(), before);
    // also for an account that held nothing, and for the treasury itself
    Currency::mint(&mut ledger, &registry, &B, &tok(), 5).unwrap();
    Currency::burn(&mut ledger, &registry, &B, &tok(), 5).unwrap();
    Currency::mint(&mut ledger, &registry, &TREASURY, &tok(), 5).unwrap();
    Currency::burn(&mut ledger, &registry, &TREASURY, &tok(), 5).unwrap();
    assert_eq!(ledger.iter_balances(), before);
}

#[test]
fn transfer_to_oneself_changes_nothing() {
    let (registry, mut ledger) = setup();
    Currency::mint(&mut ledger, &registry, &A, &tok(), 10).unwrap();
    assert!(Currency::transfer(&mut ledger, &registry, &A, &A, &tok(), 10).is_ok());
    assert_eq!(ledger.balance(&A, &tok()), 10);
    assert_eq!(
        Currency::transfer(&mut ledger, &registry, &A, &A, &tok(), 11),
        Err(DispatchError::Balances(Error::InsufficientFunds))
    );
}

#[test]
fn zero_balances_are_not_listed() {
    let (registry, mut ledger) = setup();
    Currency::mint(&mut ledger, &registry, &A, &tok(), 10).unwrap();
    Currency::mint(&mut ledger, &registry, &B, &gold(), 3).unwrap();
    assert_eq!(
        ledger.iter_balances(),
        vec![
            (TREASURY, tok(), 999_990),
            (TREASURY, usd(), 1_000_000),
            (TREASURY, gold(), 999_997),
            (A, tok(), 10),
            (B, gold(), 3),
        ]
    );
    Currency::transfer(&mut ledger, &registry, &A, &B, &tok(), 10).unwrap();
    assert_eq!(
        ledger.iter_balances(),
        vec![
            (TREASURY, tok(), 999_990),
            (TREASURY, usd(), 1_000_000),
            (TREASURY, gold(), 999_997),
            (B, gold(), 3),
            (B, tok(), 10),
        ]
    );
}

#[test]
fn creation_hook_funds_the_treasury() {
    let mut ledger = Pallet::new(Config { treasury: 9, initial_asset_issuance: 77 });
    assert_eq!(ledger.on_asset_create(&tok()), Some(()));
    assert_eq!(ledger.balance(&9, &tok()), 77);
    assert_eq!(ledger.iter_balances(), vec![(9, tok(), 77)]);
}

#[test]
fn total_in_stable_skips_assets_without_a_price() {
    let (registry, mut ledger) = setup();
    let mut prices = oracle::Pallet::new(oracle::Config {
        stable_asset: usd(),
        precision: Price::from_inner(ONE / 100),
    })
    .unwrap();
    prices.set_price(&registry, tok(), Price::from_inner(ONE / 2)).unwrap();
    Currency::mint(&mut ledger, &registry, &A, &tok(), 101).unwrap();
    Currency::mint(&mut ledger, &registry, &A, &usd(), 7).unwrap();
    Currency::mint(&mut ledger, &registry, &A, &gold(), 1_000).unwrap();
    Currency::mint(&mut ledger, &registry, &B, &tok(), 10).unwrap();
    // 101 / 2 rounded down, plus 7; gold has no price
    assert_eq!(ledger.total_in_stable(&prices, &A), 57);
    assert_eq!(ledger.total_in_stable(&prices, &B), 5);
    assert_eq!(ledger.total_in_stable(&prices, &42), 0);
    prices.set_price(&registry, gold(), Price::from_inner(3 * ONE)).unwrap();
    assert_eq!(ledger.total_in_stable(&prices, &A), 3_057);
}

#[test]
fn total_in_stable_stops_at_the_largest_amount() {
    let (registry, mut ledger) = setup_with(u128::MAX);
    let mut prices = oracle::Pallet::new(oracle::Config {
        stable_asset: usd(),
        precision: Price::from_inner(ONE / 100),
    })
    .unwrap();
    prices.set_price(&registry, tok(), Price::one()).unwrap();
    assert_eq!(ledger.total_in_stable(&prices, &TREASURY), u128::MAX);
    Currency::mint(&mut ledger, &registry, &A, &tok(), 10).unwrap();
    assert_eq!(ledger.total_in_stable(&prices, &TREASURY), u128::MAX);
}

#[test]
fn fee_is_withdrawn_and_settled() {
    let (registry, mut ledger) = setup();
    Currency::mint(&mut ledger, &registry, &A, &tok(), 100).unwrap();
    assert_eq!(ledger.withdraw_fee(&registry, &A, 0, 3), Ok(None));
    assert_eq!(
        ledger.withdraw_fee(&registry, &A, 101, 0),
        Err(TransactionValidityError::Invalid(InvalidTransaction::Payment))
    );
    assert_eq!(ledger.balance(&A, &tok()), 100);
    let paid = ledger.withdraw_fee(&registry, &A, 30, 0).unwrap();
    assert_eq!(paid, Some(30));
    assert_eq!(ledger.balance(&A, &tok()), 70);
    assert_eq!(sum_of(&ledger, &tok()), 999_970);
    assert_eq!(
        ledger.correct_and_deposit_fee(&registry, &A, 31, 0, paid),
        Err(TransactionValidityError::Invalid(InvalidTransaction::Payment))
    );
    assert_eq!(
        ledger.correct_and_deposit_fee(&registry, &A, 20, 2, paid),
        Ok(Event::TransactionPayment { who: A, fee: 20, tip: 2 })
    );
    assert_eq!(ledger.balance(&A, &tok()), 80);
    assert_eq!(ledger.balance(&TREASURY, &tok()), 999_920);
    assert_eq!(sum_of(&ledger, &tok()), 1_000_000);
    assert_eq!(
        ledger.correct_and_deposit_fee(&registry, &A, 5, 1, None),
        Ok(Event::TransactionPayment { who: A, fee: 5, tip: 1 })
    );
    assert_eq!(ledger.balance(&A, &tok()), 80);
}

#[test]
fn fee_settlement_is_atomic() {
    let (registry, mut ledger) = setup_with(u128::MAX);
    // the treasury is full: it cannot keep any fee
    assert_eq!(
        ledger.correct_and_deposit_fee(&registry, &A, 1, 0, Some(5)),
        Err(TransactionValidityError::Invalid(InvalidTransaction::Payment))
    );
    assert_eq!(ledger.balance(&A, &tok()), 0);
    assert_eq!(ledger.balance(&TREASURY, &tok()), u128::MAX);
    // a refund that the treasury itself receives counts twice
    assert_eq!(
        ledger.correct_and_deposit_fee(&registry, &TREASURY, 0, 0, Some(1)),
        Err(TransactionValidityError::Invalid(InvalidTransaction::Payment))
    );
    assert_eq!(
        ledger.correct_and_deposit_fee(&registry, &A, 0, 0, Some(5)),
        Ok(Event::TransactionPayment { who: A, fee: 0, tip: 0 })
    );
    assert_eq!(ledger.balance(&A, &tok()), 5);
}

#[test]
fn genesis_funds_the_treasury_and_mints() {
    let g = GenesisConfig::default();
    assert!(g.treasury.is_empty() && g.balances.is_empty());
    let (registry, _) = setup();
    let genesis = GenesisConfig {
        treasury: vec![tok(), usd()],
        balances: vec![
            (A, vec![(tok(), 10), (usd(), 20), (gold(), 1)]),
            (B, vec![(tok(), 1_000), (AssetId::from_utf8("nope").unwrap(), 5)]),
        ],
    };
    let ledger = genesis.build(Config { treasury: TREASURY, initial_asset_issuance: 1_000 }, &registry);
    assert_eq!(
        ledger.iter_balances(),
        vec![(TREASURY, tok(), 990), (TREASURY, usd(), 980), (A, tok(), 10), (A, usd(), 20)]
    );
}
