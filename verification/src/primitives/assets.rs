//! Asset identifiers, their metadata, and the registry interface.

use vstd::prelude::*;
use vstd::slice::slice_to_vec;
use vstd::string::{StringExecFns, StringSliceAdditionalSpecFns};
use vstd::utf8::{decode_utf8, encode_utf8, valid_utf8};
use core::cmp::Ordering;
use parity_scale_codec::Encode;
use crate::order::{ascending, bytes_lt, lemma_insert_ascending, lex_lt, no_repeat, rank};
use crate::primitives::DispatchError;

verus! {

/// The largest number of bytes an asset identifier may hold.
pub const MAX_ASSET_ID_LEN: usize = 8;

/// The name of an asset: at most [`MAX_ASSET_ID_LEN`] bytes. Identifiers are
/// ordered as their bytes are, lexicographically.
#[derive(Debug, Ord)]
pub struct AssetId(Vec<u8>);

impl View for AssetId {
    type V = Seq<u8>;

    closed spec fn view(&self) -> Seq<u8> {
        self.0@
    }
}

/// How a sequence of fewer than 64 bytes is encoded: its length times four
/// in one byte, then the bytes.
pub open spec fn encoded(bytes: Seq<u8>) -> Seq<u8> {
    seq![(bytes.len() * 4) as u8] + bytes
}

/// Calls `Encode::encode` of parity-scale-codec on a byte vector. For fewer
/// than 64 bytes the encoding is the compact length, one byte holding the
/// length times four, followed by the bytes.
#[verifier::external_body]
fn encode_bytes(bytes: &Vec<u8>) -> (r: Vec<u8>)
    requires
        bytes@.len() < 64,
    ensures
        r@ == encoded(bytes@),
{
    bytes.encode()
}

/// Calls `String::from_utf8` on a copy of `bytes`: the string whose UTF-8
/// encoding the bytes are, or nothing where they are not UTF-8.
#[verifier::external_body]
fn utf8_string(bytes: &Vec<u8>) -> (r: Option<String>)
    ensures
        match r {
            Some(text) => valid_utf8(bytes@) && encode_utf8(text@) == bytes@,
            None => !valid_utf8(bytes@),
        },
{
    String::from_utf8(bytes.clone()).ok()
}

/// Whether two byte vectors hold the same bytes.
pub fn same_bytes(a: &Vec<u8>, b: &Vec<u8>) -> (r: bool)
    ensures
        r == (a@ == b@),
{
    if a.len() != b.len() {
        return false;
    }
    let mut i: usize = 0;
    while i < a.len()
        invariant
            a.len() == b.len(),
            i <= a.len(),
            a@.subrange(0, i as int) == b@.subrange(0, i as int),
        decreases a.len() - i,
    {
        if a[i] != b[i] {
            return false;
        }
        assert(a@.subrange(0, i + 1) == a@.subrange(0, i as int).push(a@[i as int]));
        assert(b@.subrange(0, i + 1) == b@.subrange(0, i as int).push(b@[i as int]));
        i += 1;
    }
    assert(a@ == a@.subrange(0, a.len() as int));
    assert(b@ == b@.subrange(0, b.len() as int));
    true
}

impl AssetId {
    /// Every identifier respects the length bound.
    #[verifier::type_invariant]
    pub closed spec fn wf(&self) -> bool {
        self.0.len() <= MAX_ASSET_ID_LEN
    }

    /// Wraps `inner` without testing its length; the caller shows the bound.
    pub fn new_unchecked(inner: &[u8]) -> (id: Self)
        requires
            inner@.len() <= MAX_ASSET_ID_LEN,
        ensures
            id@ == inner@,
            id.wf(),
    {
        AssetId(slice_to_vec(inner))
    }

    /// An identifier holding `inner`, or `None` if it is too long.
    pub fn new(inner: Vec<u8>) -> (r: Option<Self>)
        ensures
            inner@.len() <= MAX_ASSET_ID_LEN ==> r.is_some() && r.unwrap()@ == inner@ && r.unwrap().wf(),
            inner@.len() > MAX_ASSET_ID_LEN ==> r.is_none(),
    {
        if inner.len() <= MAX_ASSET_ID_LEN {
            Some(AssetId(inner))
        } else {
            None
        }
    }

    /// The identifier spelled by the UTF-8 bytes of `inner`.
    pub fn from_utf8(inner: &str) -> (r: Option<Self>)
        ensures
            inner.spec_bytes().len() <= MAX_ASSET_ID_LEN ==> r.is_some() && r.unwrap()@
                == inner.spec_bytes() && r.unwrap().wf(),
            inner.spec_bytes().len() > MAX_ASSET_ID_LEN ==> r.is_none(),
    {
        Self::new(slice_to_vec(inner.as_bytes()))
    }

    /// The bytes of the identifier.
    pub fn as_bytes(&self) -> (r: &Vec<u8>)
        ensures
            r@ == self@,
            r@.len() <= MAX_ASSET_ID_LEN,
    {
        proof {
            use_type_invariant(self);
        }
        &self.0
    }

    /// How the identifier is shown: a dollar sign and the name that the bytes
    /// spell, or `UNKNOWN` where they are not UTF-8.
    pub fn display(&self) -> (text: String)
        ensures
            text@ == "$"@ + if valid_utf8(self@) {
                decode_utf8(self@)
            } else {
                "UNKNOWN"@
            },
    {
        let shown = String::from_str("$");
        match utf8_string(&self.0) {
            Some(name) => {
                proof {
                    vstd::utf8::encode_utf8_decode_utf8(name@);
                }
                shown.concat(name.as_str())
            },
            None => shown.concat("UNKNOWN"),
        }
    }

    /// The encoding of the identifier, by which identifiers are ordered in
    /// canonical listings.
    pub fn encode(&self) -> (r: Vec<u8>)
        ensures
            r@ == encoded(self@),
    {
        proof {
            use_type_invariant(self);
        }
        encode_bytes(&self.0)
    }

    /// The largest number of bytes that an encoded identifier takes.
    pub fn max_encoded_len() -> (n: usize)
        ensures
            n == 4 + MAX_ASSET_ID_LEN,
    {
        4 + MAX_ASSET_ID_LEN
    }

    /// The length bound holds of every well-formed identifier.
    pub proof fn lemma_len(self)
        requires
            self.wf(),
        ensures
            self@.len() <= MAX_ASSET_ID_LEN,
    {
    }
}

impl Clone for AssetId {
    fn clone(&self) -> (r: Self)
        ensures
            r@ == self@,
            r.wf(),
    {
        proof {
            use_type_invariant(self);
        }
        AssetId(self.0.clone())
    }
}

impl PartialEq for AssetId {
    fn eq(&self, other: &Self) -> (r: bool) {
        same_bytes(&self.0, &other.0)
    }
}

impl Eq for AssetId {}

impl PartialOrd for AssetId {
    fn partial_cmp(&self, other: &Self) -> (r: Option<Ordering>) {
        if bytes_lt(&self.0, &other.0) {
            Some(Ordering::Less)
        } else if bytes_lt(&other.0, &self.0) {
            Some(Ordering::Greater)
        } else {
            Some(Ordering::Equal)
        }
    }
}

impl vstd::std_specs::cmp::PartialOrdSpecImpl for AssetId {
    open spec fn obeys_partial_cmp_spec() -> bool {
        true
    }

    open spec fn partial_cmp_spec(&self, other: &Self) -> Option<Ordering> {
        if lex_lt(self@, other@) {
            Some(Ordering::Less)
        } else if lex_lt(other@, self@) {
            Some(Ordering::Greater)
        } else {
            Some(Ordering::Equal)
        }
    }
}

impl TryFrom<Vec<u8>> for AssetId {
    type Error = ();

    /// The identifier that holds `value`, or an error if it is too long.
    fn try_from(value: Vec<u8>) -> (r: Result<Self, ()>)
        ensures
            value@.len() <= MAX_ASSET_ID_LEN ==> r is Ok && r->Ok_0@ == value@,
            value@.len() > MAX_ASSET_ID_LEN ==> r is Err,
    {
        if value.len() <= MAX_ASSET_ID_LEN {
            Ok(AssetId(value))
        } else {
            Err(())
        }
    }
}

impl vstd::std_specs::convert::TryFromSpecImpl<Vec<u8>> for AssetId {
    open spec fn obeys_try_from_spec() -> bool {
        true
    }

    /// The identifier that holds `v`, where `v` is short enough.
    closed spec fn try_from_spec(v: Vec<u8>) -> Result<Self, ()> {
        if v@.len() <= MAX_ASSET_ID_LEN {
            Ok(AssetId(v))
        } else {
            Err(())
        }
    }
}

impl vstd::std_specs::cmp::PartialEqSpecImpl for AssetId {
    open spec fn obeys_eq_spec() -> bool {
        true
    }

    open spec fn eq_spec(&self, other: &Self) -> bool {
        self@ == other@
    }
}

/// The identifier of the network's native token.
pub fn tok() -> (id: AssetId)
    ensures
        id@ == seq![99u8, 111u8, 105u8, 110u8],
{
    let mut v: Vec<u8> = Vec::new();
    v.push(99u8);
    v.push(111u8);
    v.push(105u8);
    v.push(110u8);
    assert(v@ == seq![99u8, 111u8, 105u8, 110u8]);
    AssetId(v)
}

/// The identifier of the stable reference asset.
pub fn usd() -> (id: AssetId)
    ensures
        id@ == seq![117u8, 115u8, 100u8],
{
    let mut v: Vec<u8> = Vec::new();
    v.push(117u8);
    v.push(115u8);
    v.push(100u8);
    assert(v@ == seq![117u8, 115u8, 100u8]);
    AssetId(v)
}

/// What the registry records of an asset.
#[derive(Clone, Copy, Debug, PartialEq, Eq, Structural)]
pub struct AssetData {
    pub decimals: u8,
}

/// The view of each identifier of `ids`.
pub open spec fn names(ids: Seq<AssetId>) -> Seq<Seq<u8>> {
    Seq::new(ids.len(), |i: int| ids[i]@)
}

/// The encoding of each name of `list`.
pub open spec fn keys_of(list: Seq<Seq<u8>>) -> Seq<Seq<u8>> {
    Seq::new(list.len(), |i: int| encoded(list[i]))
}

/// The first `n` names of `listing` in canonical order: ascending by their
/// encodings.
pub open spec fn canonical(listing: Seq<Seq<u8>>, n: int) -> Seq<Seq<u8>>
    decreases n,
{
    if n <= 0 {
        Seq::empty()
    } else {
        let sorted = canonical(listing, n - 1);
        sorted.insert(rank(keys_of(sorted), encoded(listing[n - 1])), listing[n - 1])
    }
}

/// Different names have different encodings.
pub proof fn lemma_encoded_injective(a: Seq<u8>, b: Seq<u8>)
    requires
        encoded(a) == encoded(b),
    ensures
        a == b,
{
    assert(encoded(a).skip(1) =~= a);
    assert(encoded(b).skip(1) =~= b);
}

/// The canonical order of a listing without repeats holds the same names,
/// each once, and their encodings ascend.
pub proof fn lemma_canonical(listing: Seq<Seq<u8>>, n: int)
    requires
        no_repeat(listing),
        0 <= n <= listing.len(),
    ensures
        canonical(listing, n).len() == n,
        forall|a: Seq<u8>| #[trigger] canonical(listing, n).contains(a) <==> listing.take(n).contains(a),
        no_repeat(canonical(listing, n)),
        ascending(keys_of(canonical(listing, n))),
    decreases n,
{
    if n > 0 {
        lemma_canonical(listing, n - 1);
        let sorted = canonical(listing, n - 1);
        let x = listing[n - 1];
        let keys = keys_of(sorted);
        let head = listing.take(n - 1);
        assert(!head.contains(x)) by {
            if head.contains(x) {
                let i = choose|i: int| 0 <= i < head.len() && head[i] == x;
                assert(listing[i] != listing[n - 1]);
            }
        }
        assert(!sorted.contains(x));
        assert(!keys.contains(encoded(x))) by {
            if keys.contains(encoded(x)) {
                let i = choose|i: int| 0 <= i < keys.len() && keys[i] == encoded(x);
                lemma_encoded_injective(sorted[i], x);
                assert(sorted.contains(x));
            }
        }
        lemma_insert_ascending(keys, encoded(x));
        let r = rank(keys, encoded(x));
        let next = canonical(listing, n);
        assert(next == sorted.insert(r, x));
        assert(keys_of(next) =~= keys.insert(r, encoded(x)));
        assert(no_repeat(next)) by {
            assert forall|i: int, j: int| 0 <= i < j < next.len() implies next[i] != next[j] by {
                let i0 = if i < r { i } else { i - 1 };
                let j0 = if j < r { j } else { j - 1 };
                if i != r && j != r {
                    assert(sorted[i0] != sorted[j0]);
                } else if i == r {
                    assert(sorted.contains(sorted[j0]));
                } else {
                    assert(sorted.contains(sorted[i0]));
                }
            }
        }
        let longer = listing.take(n);
        let shorter = listing.take(n - 1);
        assert(longer == shorter.push(x));
        assert forall|a: Seq<u8>| #[trigger] next.contains(a) <==> longer.contains(a) by {
            if next.contains(a) {
                let i = choose|i: int| 0 <= i < next.len() && next[i] == a;
                if i == r {
                    assert(longer[n - 1] == a);
                } else {
                    let i0 = if i < r { i } else { i - 1 };
                    assert(sorted[i0] == a);
                    assert(sorted.contains(a));
                    let k = choose|k: int| 0 <= k < shorter.len() && shorter[k] == a;
                    assert(longer[k] == a);
                }
            }
            if longer.contains(a) {
                let k = choose|k: int| 0 <= k < longer.len() && longer[k] == a;
                if k == n - 1 {
                    assert(next[r] == a);
                } else {
                    assert(shorter[k] == a);
                    assert(shorter.contains(a));
                    assert(sorted.contains(a));
                    let i = choose|i: int| 0 <= i < sorted.len() && sorted[i] == a;
                    let i1 = if i < r { i } else { i + 1 };
                    assert(next[i1] == a);
                }
            }
        }
    } else {
        assert(keys_of(canonical(listing, n)) =~= Seq::empty());
    }
}

/// What a registry of assets offers to its consumers.
pub trait AssetGetter {
    /// The registered assets with their data.
    spec fn registered(&self) -> Map<Seq<u8>, AssetData>;

    /// The registered assets in the order of the registry.
    spec fn listing(&self) -> Seq<Seq<u8>>;

    /// The designated main asset.
    spec fn main_asset(&self) -> Seq<u8>;

    /// What went wrong when an asset is not registered.
    spec fn not_found(&self) -> DispatchError;

    /// The data of `id`.
    fn get(&self, id: &AssetId) -> (r: Result<AssetData, DispatchError>)
        ensures
            r == if self.registered().contains_key(id@) {
                Ok::<AssetData, DispatchError>(self.registered()[id@])
            } else {
                Err(self.not_found())
            },
    ;

    /// The designated main asset.
    fn get_main(&self) -> (id: AssetId)
        ensures
            id@ == self.main_asset(),
    ;

    /// Every registered asset, each once, in the order of the registry.
    fn get_all(&self) -> (ids: Vec<AssetId>)
        ensures
            names(ids@) == self.listing(),
            no_repeat(names(ids@)),
            forall|a: Seq<u8>| #[trigger] names(ids@).contains(a) <==> self.registered().contains_key(a),
    ;

    /// Every registered asset, each once, in canonical order: ascending by
    /// the encodings of the identifiers.
    fn get_all_in_ord(&self) -> (ids: Vec<AssetId>)
        ensures
            names(ids@) == canonical(self.listing(), self.listing().len() as int),
            no_repeat(names(ids@)),
            ascending(keys_of(names(ids@))),
            forall|a: Seq<u8>| #[trigger] names(ids@).contains(a) <==> self.registered().contains_key(a),
    ;

    /// Passes if `id` is registered.
    fn check(&self, id: &AssetId) -> (r: Result<(), DispatchError>)
        ensures
            r == if self.registered().contains_key(id@) {
                Ok::<(), DispatchError>(())
            } else {
                Err(self.not_found())
            },
    ;
}

/// A listener that is told of each newly created asset.
pub trait OnAssetCreate {
    /// Whether a notification of `asset` may take the listener from `self` to
    /// `after`, where `accepted` tells whether it answers with success. A
    /// listener that says nothing of itself admits every outcome.
    open spec fn notified(&self, after: &Self, asset: Seq<u8>, accepted: bool) -> bool {
        true
    }

    /// Tells the listener that `asset` was created; `None` reports a failure.
    fn on_asset_create(&mut self, asset: &AssetId) -> (r: Option<()>)
        ensures
            old(self).notified(final(self), asset@, r is Some),
    ;
}

/// No listener: every asset is accepted.
impl OnAssetCreate for () {
    open spec fn notified(&self, after: &Self, asset: Seq<u8>, accepted: bool) -> bool {
        accepted
    }

    fn on_asset_create(&mut self, asset: &AssetId) -> (r: Option<()>) {
        Some(())
    }
}

/// Two listeners in a row: the second is told only if the first accepts, and
/// the asset is accepted if both accept.
impl<A: OnAssetCreate, B: OnAssetCreate> OnAssetCreate for (A, B) {
    /// Either the first listener fails, the second is left as it was and the
    /// asset is not accepted; or the first accepts and the answer is that of
    /// the second.
    open spec fn notified(&self, after: &Self, asset: Seq<u8>, accepted: bool) -> bool {
        ||| self.0.notified(&after.0, asset, false) && after.1 == self.1 && !accepted
        ||| self.0.notified(&after.0, asset, true) && self.1.notified(&after.1, asset, accepted)
    }

    fn on_asset_create(&mut self, asset: &AssetId) -> (r: Option<()>) {
        match self.0.on_asset_create(asset) {
            Some(_) => self.1.on_asset_create(asset),
            None => None,
        }
    }
}

} // verus!
