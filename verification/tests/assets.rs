use asset_ledger::assets::{Config, Error, Event, GenesisConfig, Pallet};
use asset_ledger::balances;
use asset_ledger::primitives::assets::{
    tok, usd, AssetData, AssetGetter, AssetId, OnAssetCreate, MAX_ASSET_ID_LEN,
};
use asset_ledger::primitives::currency::Currency;
use asset_ledger::primitives::{Caller, DispatchError};

fn id(name: &str) -> AssetId {
    AssetId::from_utf8(name).unwrap()
}

struct Refuser;

impl OnAssetCreate for Refuser {
    fn on_asset_create(&mut self, _asset: &AssetId) -> Option<()> {
        None
    }
}

struct Counter(u32);

impl OnAssetCreate for Counter {
    fn on_asset_create(&mut self, _asset: &AssetId) -> Option<()> {
        self.0 += 1;
        Some(())
    }
}

#[test]
fn identifiers_are_bounded_by_eight_bytes() {
    assert_eq!(MAX_ASSET_ID_LEN, 8);
    assert!(AssetId::new(vec![1, 2, 3, 4, 5, 6, 7, 8]).is_some());
    assert!(AssetId::new(vec![1, 2, 3, 4, 5, 6, 7, 8, 9]).is_none());
    assert!(AssetId::new(vec![]).is_some());
    assert!(AssetId::from_utf8("12345678").is_some());
    assert!(AssetId::from_utf8("123456789").is_none());
    // two bytes per letter
    assert!(AssetId::from_utf8("éééé").is_some());
    assert!(AssetId::from_utf8("ééééé").is_none());
    assert_eq!(AssetId::try_from(b"coin".to_vec()), Ok(tok()));
    assert_eq!(AssetId::try_from(vec![0u8; 9]), Err(()));
    assert_eq!(AssetId::new_unchecked(b"usd"), usd());
}

#[test]
fn well_known_identifiers() {
    assert_eq!(tok().as_bytes(), &b"coin".to_vec());
    assert_eq!(usd().as_bytes(), &b"usd".to_vec());
    assert_eq!(tok(), id("coin"));
    assert_ne!(tok(), usd());
    assert_eq!(tok().clone(), tok());
}

#[test]
fn identifiers_display_with_a_dollar() {
    assert_eq!(tok().display(), "$coin");
    assert_eq!(usd().display(), "$usd");
    assert_eq!(AssetId::new(vec![0xff, 0xfe]).unwrap().display(), "$UNKNOWN");
    assert_eq!(AssetId::new(vec![]).unwrap().display(), "$");
}

#[test]
fn identifiers_encode_with_a_compact_length() {
    assert_eq!(tok().encode(), vec![16, b'c', b'o', b'i', b'n']);
    assert_eq!(AssetId::new(vec![]).unwrap().encode(), vec![0]);
    assert_eq!(AssetId::max_encoded_len(), 12);
}

#[test]
fn create_is_for_root_only() {
    let mut registry = Pallet::new(Config { main_asset: tok() });
    let mut hook = Counter(0);
    let data = AssetData { decimals: 3 };
    assert_eq!(
        registry.create(&mut hook, Caller::Signed(1), b"coin".to_vec(), data),
        Err(DispatchError::BadOrigin)
    );
    assert_eq!(
        registry.create(&mut hook, Caller::Unsigned, b"coin".to_vec(), data),
        Err(DispatchError::BadOrigin)
    );
    assert_eq!(hook.0, 0);
    assert_eq!(registry.get(&tok()), Err(DispatchError::Assets(Error::NotFound)));
    assert_eq!(registry.check(&tok()), Err(DispatchError::Assets(Error::NotFound)));
    assert_eq!(
        registry.create(&mut hook, Caller::Root, b"coin".to_vec(), data),
        Ok(Event::Created { id: tok(), data })
    );
    assert_eq!(hook.0, 1);
    assert_eq!(registry.get(&tok()), Ok(data));
    assert_eq!(registry.check(&tok()), Ok(()));
    assert_eq!(registry.get_main(), tok());
}

#[test]
fn create_rejects_long_names_and_failed_hooks() {
    let mut registry = Pallet::new(Config { main_asset: tok() });
    let data = AssetData { decimals: 3 };
    let mut hook = Counter(0);
    assert_eq!(
        registry.create(&mut hook, Caller::Root, b"much-too-long".to_vec(), data),
        Err(DispatchError::Assets(Error::WrongName))
    );
    assert_eq!(hook.0, 0);
    assert_eq!(
        registry.create(&mut Refuser, Caller::Root, b"coin".to_vec(), data),
        Err(DispatchError::Assets(Error::FailedAssetCreateHook))
    );
    assert!(registry.get_all().is_empty());
}

#[test]
fn hooks_run_in_order_and_stop_at_the_first_failure() {
    let mut registry = Pallet::new(Config { main_asset: tok() });
    let data = AssetData { decimals: 3 };
    let mut hooks = (Counter(0), (Refuser, Counter(0)));
    assert_eq!(
        registry.create(&mut hooks, Caller::Root, b"coin".to_vec(), data),
        Err(DispatchError::Assets(Error::FailedAssetCreateHook))
    );
    assert_eq!(hooks.0 .0, 1);
    assert_eq!(hooks.1 .1 .0, 0);
    let mut both = (Counter(0), Counter(5));
    assert!(registry.create(&mut both, Caller::Root, b"coin".to_vec(), data).is_ok());
    assert_eq!((both.0 .0, both.1 .0), (1, 6));
    assert!(registry.create(&mut (), Caller::Root, b"usd".to_vec(), data).is_ok());
    assert_eq!(registry.get_all(), vec![tok(), usd()]);
}

#[test]
fn remove_takes_an_asset_out() {
    let mut registry = Pallet::new(Config { main_asset: tok() });
    let data = AssetData { decimals: 1 };
    registry.create(&mut (), Caller::Root, b"coin".to_vec(), data).unwrap();
    assert_eq!(registry.remove(Caller::Signed(4), b"coin".to_vec()), Err(DispatchError::BadOrigin));
    assert_eq!(
        registry.remove(Caller::Root, b"123456789".to_vec()),
        Err(DispatchError::Assets(Error::WrongName))
    );
    assert_eq!(
        registry.remove(Caller::Root, b"usd".to_vec()),
        Err(DispatchError::Assets(Error::NotFound))
    );
    assert_eq!(
        registry.remove(Caller::Root, b"coin".to_vec()),
        Ok(Event::Removed { id: tok(), data })
    );
    assert_eq!(registry.get(&tok()), Err(DispatchError::Assets(Error::NotFound)));
}

#[test]
fn removal_leaves_balances_alone() {
    let mut registry = Pallet::new(Config { main_asset: tok() });
    let mut ledger =
        balances::Pallet::new(balances::Config { treasury: 0, initial_asset_issuance: 50 });
    registry.create(&mut ledger, Caller::Root, b"coin".to_vec(), AssetData { decimals: 1 }).unwrap();
    registry.remove(Caller::Root, b"coin".to_vec()).unwrap();
    assert_eq!(ledger.balance(&0, &tok()), 50);
}

#[test]
fn canonical_order_is_by_length_then_bytes() {
    let mut registry = Pallet::new(Config { main_asset: tok() });
    let data = AssetData { decimals: 0 };
    for name in ["usd", "coin", "b", "zz", "a", "abc", ""] {
        registry.create(&mut (), Caller::Root, name.as_bytes().to_vec(), data).unwrap();
    }
    assert_eq!(
        registry.get_all(),
        vec![id("usd"), id("coin"), id("b"), id("zz"), id("a"), id("abc"), id("")]
    );
    assert_eq!(
        registry.get_all_in_ord(),
        vec![id(""), id("a"), id("b"), id("zz"), id("abc"), id("usd"), id("coin")]
    );
}

#[test]
fn genesis_registers_assets() {
    assert!(GenesisConfig::default().assets.is_empty());
    let genesis = GenesisConfig {
        assets: vec![
            (tok(), AssetData { decimals: 2 }),
            (usd(), AssetData { decimals: 6 }),
            (tok(), AssetData { decimals: 4 }),
        ],
    };
    let registry = genesis.build(Config { main_asset: usd() });
    assert_eq!(registry.get(&tok()), Ok(AssetData { decimals: 4 }));
    assert_eq!(registry.get(&usd()), Ok(AssetData { decimals: 6 }));
    assert_eq!(registry.get_all(), vec![tok(), usd()]);
    assert_eq!(registry.get_main(), usd());
}

#[test]
fn identifiers_are_ordered_by_their_bytes() {
    let mut ids = vec![id("usd"), id("coin"), id("b"), id("zz"), id("a"), id("abc"), id("")];
    ids.sort();
    assert_eq!(ids, vec![id(""), id("a"), id("abc"), id("b"), id("coin"), id("usd"), id("zz")]);
    assert!(id("a") < id("b"));
    assert!(id("ab") > id("a"));
    assert!(id("b") > id("abc"));
    assert!(id("coin") <= id("coin"));
    assert_eq!(id("x").partial_cmp(&id("x")), Some(std::cmp::Ordering::Equal));
}
