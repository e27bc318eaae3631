use asset_ledger::assets;
use asset_ledger::balances;
use asset_ledger::distribution::{
    Call, Config, Event, OffchainLock, Pallet, Strategy, TransactionSource,
};
use asset_ledger::oracle;
use asset_ledger::primitives::assets::{tok, usd, AssetData, AssetId, OnAssetCreate};
use asset_ledger::primitives::currency::Currency;
use asset_ledger::primitives::prices::Price;
use asset_ledger::primitives::{
    Caller, DispatchError, InvalidTransaction, TransactionValidityError, UnknownTransaction,
};

const TREASURY: u64 = 0;
const POOL: u64 = 99;
const ALICE: u64 = 1;
const BOB: u64 = 2;

struct World {
    registry: assets::Pallet,
    ledger: balances::Pallet,
    prices: oracle::Pallet,
    engine: Pallet,
}

fn world(strategy: Strategy) -> World {
    let mut registry = assets::Pallet::new(assets::Config { main_asset: tok() });
    let mut ledger = balances::Pallet::new(balances::Config {
        treasury: TREASURY,
        initial_asset_issuance: 1_000_000,
    });
    registry
        .create(&mut ledger, Caller::Root, b"coin".to_vec(), AssetData { decimals: 0 })
        .unwrap();
    registry
        .create(&mut ledger, Caller::Root, b"usd".to_vec(), AssetData { decimals: 0 })
        .unwrap();
    let mut prices = oracle::Pallet::new(oracle::Config {
        stable_asset: usd(),
        precision: Price::from_inner(10_000_000_000_000_000),
    })
    .unwrap();
    prices.force_set_price(&registry, Caller::Root, tok(), Price::one()).unwrap();
    let engine = Pallet::new(Config { module_id: POOL, treasury: TREASURY, strategy });
    World { registry, ledger, prices, engine }
}

fn fund_and_deposit(w: &mut World, who: u64, amount: u128) {
    Currency::mint(&mut w.ledger, &w.registry, &who, &tok(), amount).unwrap();
    w.engine
        .deposit(&mut w.ledger, &w.registry, Caller::Signed(who), tok(), amount)
        .unwrap();
}

#[test]
fn pool_of_100_splits_30_and_70() {
    let mut w = world(Strategy::Synchronous);
    fund_and_deposit(&mut w, ALICE, 300);
    fund_and_deposit(&mut w, BOB, 700);
    assert_eq!(w.engine.total_in_stable(&w.prices), 1000);
    assert_eq!(w.engine.deposit_in_stable(&w.prices, ALICE), 300);
    assert_eq!(w.engine.deposit_in_stable(&w.prices, BOB), 700);
    w.engine.issue(&mut w.ledger, &w.registry, Caller::Root, tok(), 100).unwrap();
    assert_eq!(w.ledger.balance(&POOL, &tok()), 100);
    let treasury_before = w.ledger.balance(&TREASURY, &tok());

    let events = w.engine.on_initialize(&mut w.ledger, &w.registry, &w.prices, 7);
    assert_eq!(
        events,
        vec![
            Event::Redistributed { who: ALICE, asset: tok(), amount: 30 },
            Event::Redistributed { who: BOB, asset: tok(), amount: 70 },
        ]
    );
    assert_eq!(w.ledger.balance(&ALICE, &tok()), 30);
    assert_eq!(w.ledger.balance(&BOB, &tok()), 70);
    assert_eq!(w.ledger.balance(&POOL, &tok()), 0);
    assert_eq!(w.ledger.balance(&TREASURY, &tok()), treasury_before);
}

#[test]
fn rounding_remainder_goes_to_treasury() {
    let mut w = world(Strategy::Synchronous);
    fund_and_deposit(&mut w, ALICE, 1);
    fund_and_deposit(&mut w, BOB, 2);
    w.engine.issue(&mut w.ledger, &w.registry, Caller::Root, tok(), 100).unwrap();
    let treasury_before = w.ledger.balance(&TREASURY, &tok());
    let events = w.engine.on_initialize(&mut w.ledger, &w.registry, &w.prices, 1);
    assert_eq!(events.len(), 3);
    assert_eq!(w.ledger.balance(&ALICE, &tok()), 33);
    assert_eq!(w.ledger.balance(&BOB, &tok()), 66);
    assert_eq!(w.ledger.balance(&POOL, &tok()), 0);
    assert_eq!(w.ledger.balance(&TREASURY, &tok()), treasury_before + 1);
}

#[test]
fn asynchronous_worker_packages_requests() {
    let mut w = world(Strategy::Asynchronous);
    fund_and_deposit(&mut w, ALICE, 300);
    fund_and_deposit(&mut w, BOB, 700);
    w.engine.issue(&mut w.ledger, &w.registry, Caller::Root, tok(), 100).unwrap();
    let mut lock = OffchainLock::new();
    let calls = w.engine.offchain_worker(&mut lock, &w.ledger, &w.prices, 12).unwrap();
    assert_eq!(
        calls,
        vec![
            Call::Redistribute { who: ALICE, asset: tok(), amount: 30, block: 12 },
            Call::Redistribute { who: BOB, asset: tok(), amount: 70, block: 12 },
        ]
    );
    // nothing moved yet, and the lock is free again
    assert_eq!(w.ledger.balance(&POOL, &tok()), 100);
    assert!(lock.try_acquire());
    // a held lock refuses a second run
    assert_eq!(w.engine.offchain_worker(&mut lock, &w.ledger, &w.prices, 13), Err(()));
    lock.clear();
    // the synchronous hook does nothing under this strategy
    let events = w.engine.on_initialize(&mut w.ledger, &w.registry, &w.prices, 12);
    assert!(events.is_empty());
    assert_eq!(w.ledger.balance(&POOL, &tok()), 100);
    // the requests apply as unsigned transitions
    for call in calls {
        if let Call::Redistribute { who, asset, amount, block } = call {
            let done = w.engine.redistribute(
                &mut w.ledger,
                &w.registry,
                Caller::Unsigned,
                who,
                asset,
                amount,
                block,
            );
            assert!(done.is_ok());
        }
    }
    assert_eq!(w.ledger.balance(&ALICE, &tok()), 30);
    assert_eq!(w.ledger.balance(&BOB, &tok()), 70);
}

#[test]
fn nothing_deposited_is_a_no_op() {
    let mut w = world(Strategy::Synchronous);
    w.engine.issue(&mut w.ledger, &w.registry, Caller::Root, tok(), 100).unwrap();
    let events = w.engine.on_initialize(&mut w.ledger, &w.registry, &w.prices, 1);
    assert!(events.is_empty());
    assert_eq!(w.ledger.balance(&POOL, &tok()), 100);
    let mut lock = OffchainLock::new();
    let w2 = world(Strategy::Asynchronous);
    assert_eq!(w2.engine.offchain_worker(&mut lock, &w2.ledger, &w2.prices, 1), Ok(vec![]));
    assert!(lock.try_acquire());
}

#[test]
fn stale_request_is_rejected() {
    let call = Call::Redistribute { who: ALICE, asset: tok(), amount: 30, block: 10 };
    let late = Pallet::validate_unsigned(TransactionSource::Local, &call, 16);
    assert_eq!(late, Err(TransactionValidityError::Invalid(InvalidTransaction::Stale)));
    let edge = Pallet::validate_unsigned(TransactionSource::Local, &call, 15);
    assert_eq!(edge, Err(TransactionValidityError::Invalid(InvalidTransaction::Stale)));
    let ok = Pallet::validate_unsigned(TransactionSource::Local, &call, 14).unwrap();
    assert_eq!(ok.priority, 1);
    assert_eq!(ok.longevity, 5);
    assert!(ok.propagate);
    assert!(ok.requires.is_empty());
    let mut tag = vec![12u8 * 4];
    tag.extend_from_slice(b"Distribution");
    tag.extend_from_slice(&ALICE.to_le_bytes());
    tag.push(4 * 4);
    tag.extend_from_slice(b"coin");
    assert_eq!(ok.provides, vec![tag]);
}

#[test]
fn only_redistribution_is_validated_unsigned() {
    let call = Call::Withdraw { asset: tok() };
    assert_eq!(
        Pallet::validate_unsigned(TransactionSource::External, &call, 0),
        Err(TransactionValidityError::Unknown(UnknownTransaction::NoUnsignedValidator))
    );
}

#[test]
fn deposit_then_withdraw_round_trip() {
    let mut w = world(Strategy::Synchronous);
    Currency::mint(&mut w.ledger, &w.registry, &ALICE, &tok(), 500).unwrap();
    let treasury_before = w.ledger.balance(&TREASURY, &tok());
    let e = w.engine.deposit(&mut w.ledger, &w.registry, Caller::Signed(ALICE), tok(), 200);
    assert_eq!(e, Ok(Event::NewDeposit { who: ALICE, asset: tok(), amount: 200, total: 200 }));
    assert_eq!(w.ledger.balance(&ALICE, &tok()), 300);
    assert_eq!(w.engine.total_in_stable(&w.prices), 200);
    let e = w.engine.withdraw(&mut w.ledger, &w.registry, Caller::Signed(ALICE), tok());
    assert_eq!(e, Ok(Event::Withdraw { who: ALICE, asset: tok(), amount: 200 }));
    assert_eq!(w.ledger.balance(&ALICE, &tok()), 500);
    assert_eq!(w.ledger.balance(&TREASURY, &tok()), treasury_before);
    assert_eq!(w.engine.total_in_stable(&w.prices), 0);
    let again = w.engine.withdraw(&mut w.ledger, &w.registry, Caller::Signed(ALICE), tok());
    assert_eq!(again, Err(DispatchError::Distribution(asset_ledger::distribution::Error::NoDeposit)));
}

#[test]
fn acquire_lock_runs_and_releases() {
    let mut lock = OffchainLock::new();
    assert_eq!(Pallet::acquire_lock(&mut lock, || 41 + 1), Ok(42));
    assert!(lock.try_acquire());
    let mut ran = false;
    assert_eq!(Pallet::acquire_lock(&mut lock, || ran = true), Err(()));
    assert!(!ran);
    lock.clear();
    assert_eq!(Pallet::acquire_lock(&mut lock, || ran = true), Ok(()));
    assert!(ran);
}

#[test]
fn deposit_checks_caller_and_funds() {
    let mut w = world(Strategy::Synchronous);
    assert_eq!(
        w.engine.deposit(&mut w.ledger, &w.registry, Caller::Root, tok(), 1),
        Err(DispatchError::BadOrigin)
    );
    assert_eq!(
        w.engine.withdraw(&mut w.ledger, &w.registry, Caller::Unsigned, tok()),
        Err(DispatchError::BadOrigin)
    );
    assert_eq!(
        w.engine.deposit(&mut w.ledger, &w.registry, Caller::Signed(ALICE), tok(), 1),
        Err(DispatchError::Balances(balances::Error::InsufficientFunds))
    );
    let unknown = AssetId::from_utf8("nope").unwrap();
    assert_eq!(
        w.engine.deposit(&mut w.ledger, &w.registry, Caller::Signed(ALICE), unknown, 1),
        Err(DispatchError::Assets(assets::Error::NotFound))
    );
    assert_eq!(w.engine.total_in_stable(&w.prices), 0);
}

#[test]
fn deposits_add_up_and_withdraw_takes_all() {
    let mut w = world(Strategy::Synchronous);
    Currency::mint(&mut w.ledger, &w.registry, &ALICE, &tok(), 100).unwrap();
    w.engine.deposit(&mut w.ledger, &w.registry, Caller::Signed(ALICE), tok(), 30).unwrap();
    let second = w.engine.deposit(&mut w.ledger, &w.registry, Caller::Signed(ALICE), tok(), 20);
    assert_eq!(second, Ok(Event::NewDeposit { who: ALICE, asset: tok(), amount: 20, total: 50 }));
    fund_and_deposit(&mut w, BOB, 5);
    assert_eq!(w.engine.total_in_stable(&w.prices), 55);
    let out = w.engine.withdraw(&mut w.ledger, &w.registry, Caller::Signed(ALICE), tok());
    assert_eq!(out, Ok(Event::Withdraw { who: ALICE, asset: tok(), amount: 50 }));
    assert_eq!(w.ledger.balance(&ALICE, &tok()), 100);
    assert_eq!(w.engine.total_in_stable(&w.prices), 5);
    assert_eq!(w.engine.deposit_in_stable(&w.prices, ALICE), 0);
}

#[test]
fn issue_takes_from_the_signer_or_mints_for_root() {
    let mut w = world(Strategy::Synchronous);
    Currency::mint(&mut w.ledger, &w.registry, &ALICE, &tok(), 100).unwrap();
    let treasury_before = w.ledger.balance(&TREASURY, &tok());
    assert_eq!(
        w.engine.issue(&mut w.ledger, &w.registry, Caller::Signed(ALICE), tok(), 40),
        Ok(Event::Issued { asset: tok(), amount: 40 })
    );
    assert_eq!(w.ledger.balance(&ALICE, &tok()), 60);
    assert_eq!(w.ledger.balance(&POOL, &tok()), 40);
    assert_eq!(w.ledger.balance(&TREASURY, &tok()), treasury_before);
    assert_eq!(
        w.engine.issue(&mut w.ledger, &w.registry, Caller::Root, tok(), 10),
        Ok(Event::Issued { asset: tok(), amount: 10 })
    );
    assert_eq!(w.ledger.balance(&POOL, &tok()), 50);
    assert_eq!(w.ledger.balance(&TREASURY, &tok()), treasury_before - 10);
    // the system itself mints into the pool as well
    assert_eq!(
        w.engine.issue(&mut w.ledger, &w.registry, Caller::Unsigned, tok(), 10),
        Ok(Event::Issued { asset: tok(), amount: 10 })
    );
    assert_eq!(w.ledger.balance(&POOL, &tok()), 60);
    assert_eq!(w.ledger.balance(&TREASURY, &tok()), treasury_before - 20);
    assert_eq!(
        w.engine.issue(&mut w.ledger, &w.registry, Caller::Unsigned, tok(), u128::MAX),
        Err(DispatchError::Balances(balances::Error::InsufficientTreasury))
    );
    assert_eq!(
        w.engine.issue(&mut w.ledger, &w.registry, Caller::Signed(BOB), tok(), 10),
        Err(DispatchError::Balances(balances::Error::InsufficientFunds))
    );
}

#[test]
fn redistribute_is_for_the_system_only() {
    let mut w = world(Strategy::Asynchronous);
    w.engine.issue(&mut w.ledger, &w.registry, Caller::Root, tok(), 10).unwrap();
    for origin in [Caller::Root, Caller::Signed(ALICE)] {
        assert_eq!(
            w.engine.redistribute(&mut w.ledger, &w.registry, origin, ALICE, tok(), 5, 1),
            Err(DispatchError::BadOrigin)
        );
    }
    assert_eq!(
        w.engine.redistribute(&mut w.ledger, &w.registry, Caller::Unsigned, ALICE, tok(), 11, 1),
        Err(DispatchError::Balances(balances::Error::InsufficientFunds))
    );
    assert_eq!(
        w.engine.redistribute(&mut w.ledger, &w.registry, Caller::Unsigned, ALICE, tok(), 4, 1),
        Ok(Event::Redistributed { who: ALICE, asset: tok(), amount: 4 })
    );
    assert_eq!(w.ledger.balance(&ALICE, &tok()), 4);
    assert_eq!(w.ledger.balance(&POOL, &tok()), 6);
}

#[test]
fn twice_the_worth_earns_twice_the_share() {
    let mut w = world(Strategy::Asynchronous);
    fund_and_deposit(&mut w, ALICE, 2_000);
    fund_and_deposit(&mut w, BOB, 1_000);
    fund_and_deposit(&mut w, 3, 4);
    w.engine.issue(&mut w.ledger, &w.registry, Caller::Root, tok(), 1_000).unwrap();
    let mut lock = OffchainLock::new();
    let calls = w.engine.offchain_worker(&mut lock, &w.ledger, &w.prices, 1).unwrap();
    assert_eq!(
        calls,
        vec![
            Call::Redistribute { who: ALICE, asset: tok(), amount: 665, block: 1 },
            Call::Redistribute { who: BOB, asset: tok(), amount: 332, block: 1 },
            Call::Redistribute { who: 3, asset: tok(), amount: 1, block: 1 },
            Call::Redistribute { who: TREASURY, asset: tok(), amount: 2, block: 1 },
        ]
    );
}

#[test]
fn shares_weigh_all_deposits_of_an_account() {
    let mut w = world(Strategy::Asynchronous);
    // Alice deposits coin and usd, Bob only coin: each coin share counts the
    // whole worth of the depositor
    fund_and_deposit(&mut w, ALICE, 100);
    Currency::mint(&mut w.ledger, &w.registry, &ALICE, &usd(), 300).unwrap();
    w.engine.deposit(&mut w.ledger, &w.registry, Caller::Signed(ALICE), usd(), 300).unwrap();
    fund_and_deposit(&mut w, BOB, 100);
    assert_eq!(w.engine.total_in_stable(&w.prices), 500);
    assert_eq!(w.engine.deposit_in_stable(&w.prices, ALICE), 400);
    w.engine.issue(&mut w.ledger, &w.registry, Caller::Root, tok(), 50).unwrap();
    w.engine.issue(&mut w.ledger, &w.registry, Caller::Root, usd(), 10).unwrap();
    let mut lock = OffchainLock::new();
    let calls = w.engine.offchain_worker(&mut lock, &w.ledger, &w.prices, 2).unwrap();
    assert_eq!(
        calls,
        vec![
            Call::Redistribute { who: ALICE, asset: tok(), amount: 40, block: 2 },
            Call::Redistribute { who: ALICE, asset: usd(), amount: 8, block: 2 },
            Call::Redistribute { who: BOB, asset: tok(), amount: 10, block: 2 },
            // what is left, in ascending order of the assets
            Call::Redistribute { who: TREASURY, asset: usd(), amount: 2, block: 2 },
        ]
    );
}

#[test]
fn a_failing_payment_does_not_halt_the_cycle() {
    let mut w = world(Strategy::Synchronous);
    fund_and_deposit(&mut w, ALICE, 300);
    fund_and_deposit(&mut w, BOB, 700);
    // a ledger in which Bob holds the largest amount: his payment overflows
    w.ledger = balances::Pallet::new(balances::Config {
        treasury: TREASURY,
        initial_asset_issuance: u128::MAX,
    });
    w.ledger.on_asset_create(&tok());
    Currency::mint(&mut w.ledger, &w.registry, &BOB, &tok(), u128::MAX).unwrap();
    w.ledger.on_asset_create(&tok());
    w.engine.issue(&mut w.ledger, &w.registry, Caller::Root, tok(), 100).unwrap();

    let events = w.engine.on_initialize(&mut w.ledger, &w.registry, &w.prices, 3);
    assert_eq!(events, vec![Event::Redistributed { who: ALICE, asset: tok(), amount: 30 }]);
    assert_eq!(w.ledger.balance(&ALICE, &tok()), 30);
    assert_eq!(w.ledger.balance(&BOB, &tok()), u128::MAX);
    // not retried: what Bob did not get stays in the pool
    assert_eq!(w.ledger.balance(&POOL, &tok()), 70);
}

#[test]
fn unpriced_deposits_earn_nothing() {
    let mut w = world(Strategy::Synchronous);
    let gold = AssetId::from_utf8("gold").unwrap();
    w.registry
        .create(&mut w.ledger, Caller::Root, b"gold".to_vec(), AssetData { decimals: 0 })
        .unwrap();
    Currency::mint(&mut w.ledger, &w.registry, &ALICE, &gold, 10).unwrap();
    w.engine.deposit(&mut w.ledger, &w.registry, Caller::Signed(ALICE), gold.clone(), 10).unwrap();
    w.engine.issue(&mut w.ledger, &w.registry, Caller::Root, gold.clone(), 100).unwrap();
    assert_eq!(w.engine.total_in_stable(&w.prices), 0);
    assert!(w.engine.on_initialize(&mut w.ledger, &w.registry, &w.prices, 1).is_empty());
    assert_eq!(w.ledger.balance(&POOL, &gold), 100);
    // with another depositor the pool of gold goes to the treasury
    fund_and_deposit(&mut w, BOB, 5);
    let treasury_before = w.ledger.balance(&TREASURY, &gold);
    let events = w.engine.on_initialize(&mut w.ledger, &w.registry, &w.prices, 2);
    assert_eq!(events, vec![Event::Redistributed { who: TREASURY, asset: gold.clone(), amount: 100 }]);
    assert_eq!(w.ledger.balance(&TREASURY, &gold), treasury_before + 100);
}

#[test]
fn deposits_beyond_the_largest_total_are_refused() {
    let mut w = world(Strategy::Synchronous);
    w.ledger = balances::Pallet::new(balances::Config {
        treasury: TREASURY,
        initial_asset_issuance: u128::MAX,
    });
    w.ledger.on_asset_create(&tok());
    Currency::mint(&mut w.ledger, &w.registry, &ALICE, &tok(), u128::MAX).unwrap();
    w.engine
        .deposit(&mut w.ledger, &w.registry, Caller::Signed(ALICE), tok(), u128::MAX)
        .unwrap();
    w.ledger.on_asset_create(&tok());
    // the treasury is full again: take one unit out for Bob
    Currency::transfer(&mut w.ledger, &w.registry, &TREASURY, &BOB, &tok(), 1).unwrap();
    assert_eq!(
        w.engine.deposit(&mut w.ledger, &w.registry, Caller::Signed(BOB), tok(), 1),
        Err(DispatchError::Balances(balances::Error::Overflow))
    );
    assert_eq!(w.ledger.balance(&BOB, &tok()), 1);
    assert_eq!(w.engine.deposit_in_stable(&w.prices, BOB), 0);
    assert_eq!(w.engine.total_in_stable(&w.prices), u128::MAX);
    // what the burn refuses comes before the total that would not fit
    assert_eq!(
        w.engine.deposit(&mut w.ledger, &w.registry, Caller::Signed(BOB), tok(), 2),
        Err(DispatchError::Balances(balances::Error::InsufficientFunds))
    );
    let unknown = AssetId::from_utf8("nope").unwrap();
    assert_eq!(
        w.engine.deposit(&mut w.ledger, &w.registry, Caller::Signed(BOB), unknown, u128::MAX),
        Err(DispatchError::Assets(assets::Error::NotFound))
    );
    // a treasury that has no room refuses before the total does
    w.ledger.on_asset_create(&tok());
    assert_eq!(
        w.engine.deposit(&mut w.ledger, &w.registry, Caller::Signed(BOB), tok(), 1),
        Err(DispatchError::Balances(balances::Error::Overflow))
    );
    assert_eq!(w.ledger.balance(&BOB, &tok()), 1);
    assert_eq!(w.ledger.balance(&TREASURY, &tok()), u128::MAX);
}
