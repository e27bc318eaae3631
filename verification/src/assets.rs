//! The registry of assets.

use vstd::prelude::*;
use crate::order::{deep, no_repeat, place};
use crate::primitives::assets::{
    canonical, keys_of, names, AssetData, AssetGetter, AssetId, OnAssetCreate,
};
use crate::primitives::{ensure_root, Caller, DispatchError};
use crate::storage::AssetMap;

verus! {

/// What the registry is set up with.
pub struct Config {
    /// The designated main asset.
    pub main_asset: AssetId,
}

/// The assets that the registry starts with.
pub struct GenesisConfig {
    pub assets: Vec<(AssetId, AssetData)>,
}

impl Default for GenesisConfig {
    /// No asset.
    fn default() -> (g: Self)
        ensures
            g.assets@.len() == 0,
    {
        GenesisConfig { assets: Vec::new() }
    }
}

/// The table after the first `k` of `entries` are inserted in order.
pub open spec fn seeded(entries: Seq<(AssetId, AssetData)>, k: int) -> Map<Seq<u8>, AssetData>
    decreases k,
{
    if k <= 0 {
        Map::empty()
    } else {
        seeded(entries, k - 1).insert(entries[k - 1].0@, entries[k - 1].1)
    }
}

/// The order of the table after the first `k` of `entries` are inserted:
/// each asset where it first occurs.
pub open spec fn seeded_order(entries: Seq<(AssetId, AssetData)>, k: int) -> Seq<Seq<u8>>
    decreases k,
{
    if k <= 0 {
        Seq::empty()
    } else if seeded(entries, k - 1).contains_key(entries[k - 1].0@) {
        seeded_order(entries, k - 1)
    } else {
        seeded_order(entries, k - 1).push(entries[k - 1].0@)
    }
}

impl GenesisConfig {
    /// The registry that holds these assets.
    pub fn build(&self, config: Config) -> (p: Pallet)
        ensures
            p.held() == seeded(self.assets@, self.assets@.len() as int),
            p.order() == seeded_order(self.assets@, self.assets@.len() as int),
            p.main_id() == config.main_asset@,
    {
        let mut p = Pallet::new(config);
        let mut i: usize = 0;
        while i < self.assets.len()
            invariant
                i <= self.assets.len(),
                p.held() == seeded(self.assets@, i as int),
                p.order() == seeded_order(self.assets@, i as int),
                p.main_id() == config.main_asset@,
            decreases self.assets.len() - i,
        {
            p.assets.insert(&self.assets[i].0, self.assets[i].1);
            i += 1;
        }
        p
    }
}

/// Whether the registry went from `before` to `after` and answered `r` as
/// the registration of `id` with `data` asks, where `accepted` tells whether
/// the listeners accepted the asset.
pub open spec fn recorded(
    before: Pallet,
    after: Pallet,
    id: Seq<u8>,
    data: AssetData,
    accepted: bool,
    r: Result<Event, DispatchError>,
) -> bool {
    &&& after.main_id() == before.main_id()
    &&& if accepted {
        &&& r matches Ok(Event::Created { id: i, data: d })
        &&& i@ == id
        &&& d == data
        &&& after.held() == before.held().insert(id, data)
        &&& after.order() == if before.held().contains_key(id) {
            before.order()
        } else {
            before.order().push(id)
        }
    } else {
        &&& r == Err::<Event, DispatchError>(DispatchError::Assets(Error::FailedAssetCreateHook))
        &&& after.held() == before.held()
        &&& after.order() == before.order()
    }
}

/// What the registry reports.
#[derive(Debug, PartialEq, Eq)]
pub enum Event {
    Created { id: AssetId, data: AssetData },
    Removed { id: AssetId, data: AssetData },
}

/// Why the registry refuses.
#[derive(Clone, Copy, Debug, PartialEq, Eq, Structural)]
pub enum Error {
    /// The name is too long for an identifier.
    WrongName,
    /// A listener failed on the new asset.
    FailedAssetCreateHook,
    /// No such asset is registered.
    NotFound,
}

/// The registry: each asset with its data.
pub struct Pallet {
    config: Config,
    assets: AssetMap<AssetData>,
}

impl Pallet {
    /// The assets that the registry holds.
    pub closed spec fn held(&self) -> Map<Seq<u8>, AssetData> {
        self.assets@
    }

    /// The held assets in the order of their registration.
    pub closed spec fn order(&self) -> Seq<Seq<u8>> {
        self.assets.keys()
    }

    /// The configured main asset.
    pub closed spec fn main_id(&self) -> Seq<u8> {
        self.config.main_asset@
    }

    /// No asset is listed twice.
    pub proof fn lemma_order_distinct(&self)
        requires
            self.wf(),
        ensures
            no_repeat(self.order()),
            forall|a: Seq<u8>| #[trigger] self.order().contains(a) <==> self.held().contains_key(a),
    {
        let slots = self.assets.slots();
        assert forall|i: int, j: int| 0 <= i < j < self.order().len() implies self.order()[i]
            != self.order()[j] by {
            assert(slots[i].key != slots[j].key);
        }
        assert forall|a: Seq<u8>| #[trigger] self.order().contains(a) <==> self.held().contains_key(
            a,
        ) by {
            if self.order().contains(a) {
                let i = choose|i: int| 0 <= i < self.order().len() && self.order()[i] == a;
                assert(slots[i].key == a);
            }
            if self.held().contains_key(a) {
                let i = crate::storage::slot_index(slots, a);
                assert(self.order()[i] == a);
            }
        }
    }

    /// The registry's table is well formed.
    pub closed spec fn wf(&self) -> bool {
        self.assets.wf()
    }

    /// An empty registry.
    pub fn new(config: Config) -> (p: Self)
        ensures
            p.held() == Map::<Seq<u8>, AssetData>::empty(),
            p.order() == Seq::<Seq<u8>>::empty(),
            p.main_id() == config.main_asset@,
    {
        let p = Pallet { config, assets: AssetMap::new() };
        assert(p.order() =~= Seq::<Seq<u8>>::empty());
        p
    }

    /// Registers the asset named `name` with `data`, once `hook` has accepted
    /// it. Only the privileged caller may do so, and `hook` is told only of a
    /// name that fits an identifier. Whether `hook` accepts decides between
    /// the two outcomes of [`Pallet::record`]; what becomes of `hook` is what
    /// its notification says.
    pub fn create<H: OnAssetCreate>(
        &mut self,
        hook: &mut H,
        origin: Caller,
        name: Vec<u8>,
        data: AssetData,
    ) -> (r: Result<Event, DispatchError>)
        ensures
            final(self).main_id() == old(self).main_id(),
            origin != Caller::Root ==> r == Err::<Event, DispatchError>(DispatchError::BadOrigin)
                && *final(hook) == *old(hook) && final(self).held() == old(self).held()
                && final(self).order() == old(self).order(),
            origin == Caller::Root && name@.len() > 8 ==> r == Err::<Event, DispatchError>(
                DispatchError::Assets(Error::WrongName),
            ) && *final(hook) == *old(hook) && final(self).held() == old(self).held()
                && final(self).order() == old(self).order(),
            origin == Caller::Root && name@.len() <= 8 ==> {
                ||| old(hook).notified(final(hook), name@, false) && recorded(
                    *old(self),
                    *final(self),
                    name@,
                    data,
                    false,
                    r,
                )
                ||| old(hook).notified(final(hook), name@, true) && recorded(
                    *old(self),
                    *final(self),
                    name@,
                    data,
                    true,
                    r,
                )
            },
    {
        if let Err(e) = ensure_root(origin) {
            return Err(e);
        }
        let id = match AssetId::new(name) {
            Some(id) => id,
            None => {
                return Err(DispatchError::Assets(Error::WrongName));
            },
        };
        let answer = hook.on_asset_create(&id);
        self.record(id, data, answer)
    }

    /// Registers `id` with `data` where the listeners have accepted it, and
    /// reports their failure where they have not.
    pub fn record(&mut self, id: AssetId, data: AssetData, answer: Option<()>) -> (r: Result<
        Event,
        DispatchError,
    >)
        ensures
            recorded(*old(self), *final(self), id@, data, answer is Some, r),
    {
        match answer {
            Some(_) => {
                self.assets.insert(&id, data);
                Ok(Event::Created { id, data })
            },
            None => Err(DispatchError::Assets(Error::FailedAssetCreateHook)),
        }
    }

    /// Takes the asset named `name` out of the registry. Only the privileged
    /// caller may do so.
    pub fn remove(&mut self, origin: Caller, name: Vec<u8>) -> (r: Result<Event, DispatchError>)
        ensures
            final(self).main_id() == old(self).main_id(),
            origin != Caller::Root ==> r == Err::<Event, DispatchError>(DispatchError::BadOrigin)
                && final(self).held() == old(self).held(),
            origin == Caller::Root && name@.len() > 8 ==> r == Err::<Event, DispatchError>(
                DispatchError::Assets(Error::WrongName),
            ) && final(self).held() == old(self).held(),
            origin == Caller::Root && name@.len() <= 8 && !old(self).held().contains_key(name@) ==> r
                == Err::<Event, DispatchError>(DispatchError::Assets(Error::NotFound))
                && final(self).held() == old(self).held(),
            origin == Caller::Root && name@.len() <= 8 && old(self).held().contains_key(name@) ==> {
                &&& r matches Ok(Event::Removed { id, data })
                &&& id@ == name@
                &&& data == old(self).held()[name@]
                &&& final(self).held() == old(self).held().remove(name@)
                &&& final(self).order() == old(self).order().remove(old(self).order().index_of(name@))
            },
            r is Err ==> final(self).order() == old(self).order(),
    {
        if let Err(e) = ensure_root(origin) {
            return Err(e);
        }
        let id = match AssetId::new(name) {
            Some(id) => id,
            None => {
                return Err(DispatchError::Assets(Error::WrongName));
            },
        };
        proof {
            use_type_invariant(&self.assets);
            let slots = self.assets.slots();
            if crate::storage::has_slot(slots, id@) {
                let i = crate::storage::slot_index(slots, id@);
                assert(self.order()[i] == id@);
                let j = self.order().index_of(id@);
                assert(self.order()[j] == id@);
                if i < j {
                    assert(slots[i].key != slots[j].key);
                } else if j < i {
                    assert(slots[j].key != slots[i].key);
                }
            }
        }
        match self.assets.remove(&id) {
            Some(data) => Ok(Event::Removed { id, data }),
            None => {
                assert(self.held() =~= old(self).held());
                Err(DispatchError::Assets(Error::NotFound))
            },
        }
    }
}

impl AssetGetter for Pallet {
    open spec fn registered(&self) -> Map<Seq<u8>, AssetData> {
        self.held()
    }

    open spec fn listing(&self) -> Seq<Seq<u8>> {
        self.order()
    }

    open spec fn main_asset(&self) -> Seq<u8> {
        self.main_id()
    }

    open spec fn not_found(&self) -> DispatchError {
        DispatchError::Assets(Error::NotFound)
    }

    fn get(&self, id: &AssetId) -> (r: Result<AssetData, DispatchError>) {
        match self.assets.get(id) {
            Some(data) => Ok(data),
            None => Err(DispatchError::Assets(Error::NotFound)),
        }
    }

    fn check(&self, id: &AssetId) -> (r: Result<(), DispatchError>) {
        match self.get(id) {
            Ok(_) => Ok(()),
            Err(e) => Err(e),
        }
    }

    fn get_all_in_ord(&self) -> (ids: Vec<AssetId>) {
        let all = self.get_all();
        let mut ids: Vec<AssetId> = Vec::new();
        let mut keys: Vec<Vec<u8>> = Vec::new();
        let mut i: usize = 0;
        assert(names(ids@) =~= canonical(self.listing(), 0));
        assert(deep(keys@) =~= keys_of(names(ids@)));
        while i < all.len()
            invariant
                i <= all.len(),
                names(all@) == self.listing(),
                names(ids@) == canonical(self.listing(), i as int),
                deep(keys@) == keys_of(names(ids@)),
            decreases all.len() - i,
        {
            let key = all[i].encode();
            let at = place(&keys, &key);
            assert(names(all@)[i as int] == all@[i as int]@);
            let ghost before = names(ids@);
            let ghost keys_before = deep(keys@);
            ids.insert(at, all[i].clone());
            keys.insert(at, key);
            assert(names(ids@) =~= before.insert(at as int, all@[i as int]@));
            assert(deep(keys@) =~= keys_before.insert(at as int, key@));
            assert(deep(keys@) =~= keys_of(names(ids@)));
            i += 1;
        }
        proof {
            let listing = self.listing();
            crate::primitives::assets::lemma_canonical(listing, listing.len() as int);
            assert(listing.take(listing.len() as int) == listing);
        }
        ids
    }

    fn get_main(&self) -> (id: AssetId) {
        self.config.main_asset.clone()
    }

    fn get_all(&self) -> (ids: Vec<AssetId>) {
        let mut ids: Vec<AssetId> = Vec::new();
        let mut i: usize = 0;
        while i < self.assets.len()
            invariant
                i <= self.assets.slots().len(),
                ids@.len() == i,
                forall|j: int| 0 <= j < i ==> (#[trigger] ids@[j])@ == self.assets.slots()[j].key,
            decreases self.assets.slots().len() - i,
        {
            ids.push(self.assets.entry(i).key.clone());
            i += 1;
        }
        assert(names(ids@) =~= self.listing());
        proof {
            use_type_invariant(&self.assets);
            self.lemma_order_distinct();
        }
        ids
    }
}

} // verus!
