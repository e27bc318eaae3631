//! Sparse maps from accounts and assets to amounts, kept in insertion order.

use vstd::prelude::*;
use crate::primitives::assets::AssetId;
use crate::primitives::{AccountId, Balance};

verus! {

/// One row of a balance table, as the contracts see it.
pub struct Row {
    pub who: AccountId,
    pub asset: Seq<u8>,
    pub amount: Balance,
}

/// Whether `row` is the row of `who` and `asset`.
pub open spec fn keyed(row: Row, who: AccountId, asset: Seq<u8>) -> bool {
    row.who == who && row.asset == asset
}

/// No two rows share an account and an asset.
pub open spec fn distinct_keys(rows: Seq<Row>) -> bool {
    forall|i: int, j: int|
        0 <= i < j < rows.len() ==> !keyed(#[trigger] rows[i], (#[trigger] rows[j]).who, rows[j].asset)
}

/// No row holds a zero amount.
pub open spec fn no_zero(rows: Seq<Row>) -> bool {
    forall|i: int| 0 <= i < rows.len() ==> (#[trigger] rows[i]).amount != 0
}

/// Whether some row belongs to `who` and `asset`.
pub open spec fn has_row(rows: Seq<Row>, who: AccountId, asset: Seq<u8>) -> bool {
    exists|i: int| 0 <= i < rows.len() && keyed(#[trigger] rows[i], who, asset)
}

/// The amount that `rows` records for `who` and `asset`; zero where no row does.
pub open spec fn amount_in(rows: Seq<Row>, who: AccountId, asset: Seq<u8>) -> Balance
    decreases rows.len(),
{
    if rows.len() == 0 {
        0
    } else if keyed(rows.last(), who, asset) {
        rows.last().amount
    } else {
        amount_in(rows.drop_last(), who, asset)
    }
}

/// The amount that `rows` records for every account and asset.
pub open spec fn view_of(rows: Seq<Row>) -> Map<(AccountId, Seq<u8>), Balance> {
    Map::total(|k: (AccountId, Seq<u8>)| amount_in(rows, k.0, k.1))
}

/// The sum of the amounts that `rows` records for `asset`, over all accounts.
pub open spec fn asset_sum(rows: Seq<Row>, asset: Seq<u8>) -> nat
    decreases rows.len(),
{
    if rows.len() == 0 {
        0
    } else {
        asset_sum(rows.drop_last(), asset) + if rows.last().asset == asset {
            rows.last().amount as nat
        } else {
            0
        }
    }
}

/// What `row` adds to the sum for `asset`.
pub open spec fn share_of(row: Row, asset: Seq<u8>) -> nat {
    if row.asset == asset {
        row.amount as nat
    } else {
        0
    }
}

/// The rows after `who`'s amount of `asset` is set to `amount`: a zero removes
/// the row, another amount replaces it in place or is appended.
pub open spec fn rows_with(rows: Seq<Row>, who: AccountId, asset: Seq<u8>, amount: Balance) -> Seq<Row> {
    if has_row(rows, who, asset) {
        let i = choose|i: int| 0 <= i < rows.len() && keyed(#[trigger] rows[i], who, asset);
        if amount == 0 {
            rows.remove(i)
        } else {
            rows.update(i, Row { who, asset, amount })
        }
    } else if amount == 0 {
        rows
    } else {
        rows.push(Row { who, asset, amount })
    }
}

/// A row's amount is the amount recorded for its key.
pub proof fn lemma_amount_of_row(rows: Seq<Row>, i: int)
    requires
        distinct_keys(rows),
        0 <= i < rows.len(),
    ensures
        amount_in(rows, rows[i].who, rows[i].asset) == rows[i].amount,
    decreases rows.len(),
{
    if i < rows.len() - 1 {
        assert(!keyed(rows[i], rows[rows.len() - 1].who, rows[rows.len() - 1].asset));
        lemma_amount_of_row(rows.drop_last(), i);
    }
}

/// A key without a row reads as zero.
pub proof fn lemma_amount_absent(rows: Seq<Row>, who: AccountId, asset: Seq<u8>)
    requires
        !has_row(rows, who, asset),
    ensures
        amount_in(rows, who, asset) == 0,
    decreases rows.len(),
{
    if rows.len() > 0 {
        assert(!keyed(rows[rows.len() - 1], who, asset));
        assert forall|i: int| 0 <= i < rows.drop_last().len() implies !keyed(
            #[trigger] rows.drop_last()[i],
            who,
            asset,
        ) by {
            assert(rows.drop_last()[i] == rows[i]);
        }
        lemma_amount_absent(rows.drop_last(), who, asset);
    }
}

/// No single amount exceeds the sum of its asset.
pub proof fn lemma_amount_within_sum(rows: Seq<Row>, who: AccountId, asset: Seq<u8>)
    ensures
        amount_in(rows, who, asset) <= asset_sum(rows, asset),
    decreases rows.len(),
{
    if rows.len() > 0 {
        lemma_amount_within_sum(rows.drop_last(), who, asset);
    }
}

/// Replacing the amount of row `i` changes that key's reading and the sum of
/// its asset, and nothing else.
pub proof fn lemma_update(rows: Seq<Row>, i: int, amount: Balance, who: AccountId, asset: Seq<u8>)
    requires
        distinct_keys(rows),
        0 <= i < rows.len(),
    ensures
        distinct_keys(rows.update(i, Row { amount, ..rows[i] })),
        amount_in(rows.update(i, Row { amount, ..rows[i] }), who, asset) == if keyed(
            rows[i],
            who,
            asset,
        ) {
            amount
        } else {
            amount_in(rows, who, asset)
        },
        asset_sum(rows.update(i, Row { amount, ..rows[i] }), asset) == asset_sum(rows, asset)
            - share_of(rows[i], asset) + share_of(Row { amount, ..rows[i] }, asset),
    decreases rows.len(),
{
    let next = rows.update(i, Row { amount, ..rows[i] });
    assert(distinct_keys(next)) by {
        assert forall|a: int, b: int| 0 <= a < b < next.len() implies !keyed(
            #[trigger] next[a],
            (#[trigger] next[b]).who,
            next[b].asset,
        ) by {
            assert(!keyed(rows[a], rows[b].who, rows[b].asset));
        }
    }
    if i == rows.len() - 1 {
        assert(next.drop_last() == rows.drop_last());
    } else {
        assert(next.drop_last() == rows.drop_last().update(i, Row { amount, ..rows[i] }));
        assert(rows.drop_last()[i] == rows[i]);
        assert(distinct_keys(rows.drop_last())) by {
            assert forall|a: int, b: int| 0 <= a < b < rows.drop_last().len() implies !keyed(
                #[trigger] rows.drop_last()[a],
                (#[trigger] rows.drop_last()[b]).who,
                rows.drop_last()[b].asset,
            ) by {
                assert(!keyed(rows[a], rows[b].who, rows[b].asset));
            }
        }
        lemma_update(rows.drop_last(), i, amount, who, asset);
        assert(!keyed(rows[i], rows[rows.len() - 1].who, rows[rows.len() - 1].asset));
    }
}

/// Removing row `i` makes that key read zero, takes its amount out of the sum
/// of its asset, and changes nothing else.
pub proof fn lemma_remove(rows: Seq<Row>, i: int, who: AccountId, asset: Seq<u8>)
    requires
        distinct_keys(rows),
        0 <= i < rows.len(),
    ensures
        distinct_keys(rows.remove(i)),
        amount_in(rows.remove(i), who, asset) == if keyed(rows[i], who, asset) {
            0
        } else {
            amount_in(rows, who, asset)
        },
        asset_sum(rows.remove(i), asset) == asset_sum(rows, asset) - share_of(rows[i], asset),
    decreases rows.len(),
{
    let next = rows.remove(i);
    assert(distinct_keys(next)) by {
        assert forall|a: int, b: int| 0 <= a < b < next.len() implies !keyed(
            #[trigger] next[a],
            (#[trigger] next[b]).who,
            next[b].asset,
        ) by {
            let a0 = if a < i { a } else { a + 1 };
            let b0 = if b < i { b } else { b + 1 };
            assert(!keyed(rows[a0], rows[b0].who, rows[b0].asset));
        }
    }
    if i == rows.len() - 1 {
        assert(next == rows.drop_last());
        if keyed(rows[i], who, asset) {
            assert(!has_row(next, who, asset)) by {
                if has_row(next, who, asset) {
                    let j = choose|j: int| 0 <= j < next.len() && keyed(#[trigger] next[j], who, asset);
                    assert(!keyed(rows[j], rows[i].who, rows[i].asset));
                }
            }
            lemma_amount_absent(next, who, asset);
        }
    } else {
        assert(next.drop_last() == rows.drop_last().remove(i));
        assert(next.last() == rows.last());
        assert(rows.drop_last()[i] == rows[i]);
        assert(distinct_keys(rows.drop_last())) by {
            assert forall|a: int, b: int| 0 <= a < b < rows.drop_last().len() implies !keyed(
                #[trigger] rows.drop_last()[a],
                (#[trigger] rows.drop_last()[b]).who,
                rows.drop_last()[b].asset,
            ) by {
                assert(!keyed(rows[a], rows[b].who, rows[b].asset));
            }
        }
        lemma_remove(rows.drop_last(), i, who, asset);
        assert(!keyed(rows[i], rows[rows.len() - 1].who, rows[rows.len() - 1].asset));
    }
}

/// Appending a row for a key that had none sets that key's reading, adds the
/// amount to the sum of its asset, and changes nothing else.
pub proof fn lemma_push(rows: Seq<Row>, row: Row, who: AccountId, asset: Seq<u8>)
    requires
        distinct_keys(rows),
        !has_row(rows, row.who, row.asset),
    ensures
        distinct_keys(rows.push(row)),
        amount_in(rows.push(row), who, asset) == if keyed(row, who, asset) {
            row.amount
        } else {
            amount_in(rows, who, asset)
        },
        asset_sum(rows.push(row), asset) == asset_sum(rows, asset) + share_of(row, asset),
{
    let next = rows.push(row);
    assert(next.drop_last() == rows);
    assert forall|a: int, b: int| 0 <= a < b < next.len() implies !keyed(
        #[trigger] next[a],
        (#[trigger] next[b]).who,
        next[b].asset,
    ) by {
        if b < rows.len() {
            assert(!keyed(rows[a], rows[b].who, rows[b].asset));
        } else {
            assert(!keyed(rows[a], row.who, row.asset));
        }
    }
}

/// Setting an amount keeps the keys distinct.
pub proof fn lemma_rows_with(rows: Seq<Row>, who: AccountId, asset: Seq<u8>, amount: Balance)
    requires
        distinct_keys(rows),
    ensures
        distinct_keys(rows_with(rows, who, asset, amount)),
{
    if has_row(rows, who, asset) {
        let i = choose|i: int| 0 <= i < rows.len() && keyed(#[trigger] rows[i], who, asset);
        lemma_remove(rows, i, who, asset);
        lemma_update(rows, i, amount, who, asset);
        assert(Row { amount, ..rows[i] } == Row { who, asset, amount });
    } else {
        lemma_push(rows, Row { who, asset, amount }, who, asset);
    }
}

/// Setting an amount brings no zero among the rows.
pub proof fn lemma_rows_with_no_zero(rows: Seq<Row>, who: AccountId, asset: Seq<u8>, amount: Balance)
    requires
        no_zero(rows),
    ensures
        no_zero(rows_with(rows, who, asset, amount)),
{
    let next = rows_with(rows, who, asset, amount);
    if has_row(rows, who, asset) {
        let i = choose|i: int| 0 <= i < rows.len() && keyed(#[trigger] rows[i], who, asset);
        assert forall|j: int| 0 <= j < next.len() implies (#[trigger] next[j]).amount != 0 by {
            if amount == 0 {
                let j0 = if j < i { j } else { j + 1 };
                assert(rows[j0].amount != 0);
            } else if j != i {
                assert(rows[j].amount != 0);
            }
        }
    } else {
        assert forall|j: int| 0 <= j < next.len() implies (#[trigger] next[j]).amount != 0 by {
            if j < rows.len() {
                assert(rows[j].amount != 0);
            }
        }
    }
}

/// Setting an amount changes what that key reads, and no other reading.
pub proof fn lemma_rows_with_reads(
    rows: Seq<Row>,
    who: AccountId,
    asset: Seq<u8>,
    amount: Balance,
    other: AccountId,
    other_asset: Seq<u8>,
)
    requires
        distinct_keys(rows),
    ensures
        amount_in(rows_with(rows, who, asset, amount), other, other_asset) == if other == who
            && other_asset == asset {
            amount
        } else {
            amount_in(rows, other, other_asset)
        },
{
    if has_row(rows, who, asset) {
        let i = choose|i: int| 0 <= i < rows.len() && keyed(#[trigger] rows[i], who, asset);
        lemma_remove(rows, i, other, other_asset);
        lemma_update(rows, i, amount, other, other_asset);
        assert(Row { amount, ..rows[i] } == Row { who, asset, amount });
    } else {
        lemma_amount_absent(rows, who, asset);
        lemma_push(rows, Row { who, asset, amount }, other, other_asset);
    }
}

/// Setting an amount moves the sum of its asset by the difference, and no
/// other sum.
pub proof fn lemma_rows_with_sum(
    rows: Seq<Row>,
    who: AccountId,
    asset: Seq<u8>,
    amount: Balance,
    other_asset: Seq<u8>,
)
    requires
        distinct_keys(rows),
    ensures
        asset_sum(rows_with(rows, who, asset, amount), other_asset) == if other_asset == asset {
            asset_sum(rows, asset) - amount_in(rows, who, asset) + amount
        } else {
            asset_sum(rows, other_asset) as int
        },
{
    if has_row(rows, who, asset) {
        let i = choose|i: int| 0 <= i < rows.len() && keyed(#[trigger] rows[i], who, asset);
        lemma_amount_of_row(rows, i);
        lemma_remove(rows, i, who, other_asset);
        lemma_update(rows, i, amount, who, other_asset);
        assert(Row { amount, ..rows[i] } == Row { who, asset, amount });
    } else {
        lemma_amount_absent(rows, who, asset);
        lemma_push(rows, Row { who, asset, amount }, who, other_asset);
    }
}

/// One stored row: an account, an asset and a non-zero amount.
pub struct BalanceEntry {
    pub who: AccountId,
    pub asset: AssetId,
    pub amount: Balance,
}

/// The rows that `entries` stand for.
pub open spec fn rows_of(entries: Seq<BalanceEntry>) -> Seq<Row> {
    Seq::new(
        entries.len(),
        |i: int| Row { who: entries[i].who, asset: entries[i].asset@, amount: entries[i].amount },
    )
}

/// A sparse table from (account, asset) to an amount. A key without a row
/// reads as zero, no row holds zero, and rows keep the order in which their
/// keys first received an amount.
pub struct BalanceMap {
    entries: Vec<BalanceEntry>,
}

impl View for BalanceMap {
    type V = Map<(AccountId, Seq<u8>), Balance>;

    /// The amount of every key, zero included.
    open spec fn view(&self) -> Map<(AccountId, Seq<u8>), Balance> {
        view_of(self.rows())
    }
}

impl BalanceMap {
    /// The stored rows, in order.
    pub closed spec fn rows(&self) -> Seq<Row> {
        rows_of(self.entries@)
    }

    /// Keys are distinct and amounts are not zero.
    #[verifier::type_invariant]
    pub open spec fn wf(&self) -> bool {
        &&& distinct_keys(self.rows())
        &&& no_zero(self.rows())
    }

    /// The sum over all accounts of the amounts of `asset`.
    pub open spec fn total(&self, asset: Seq<u8>) -> nat {
        asset_sum(self.rows(), asset)
    }

    /// No single amount exceeds the total of its asset.
    pub proof fn lemma_within_total(&self, who: AccountId, asset: Seq<u8>)
        ensures
            self@[(who, asset)] <= self.total(asset),
    {
        lemma_amount_within_sum(self.rows(), who, asset);
    }

    /// A table without rows.
    pub fn new() -> (m: Self)
        ensures
            m.rows() == Seq::<Row>::empty(),
            m.wf(),
    {
        let m = BalanceMap { entries: Vec::new() };
        assert(m.rows() =~= Seq::<Row>::empty());
        m
    }

    /// The number of rows.
    pub fn len(&self) -> (n: usize)
        ensures
            n == self.rows().len(),
    {
        self.entries.len()
    }

    /// Row `i`.
    pub fn entry(&self, i: usize) -> (e: &BalanceEntry)
        requires
            i < self.rows().len(),
        ensures
            e.who == self.rows()[i as int].who,
            e.asset@ == self.rows()[i as int].asset,
            e.amount == self.rows()[i as int].amount,
            e.amount != 0,
    {
        proof {
            use_type_invariant(self);
        }
        &self.entries[i]
    }

    /// The index of the row of `who` and `asset`, if there is one.
    fn position(&self, who: AccountId, asset: &AssetId) -> (r: Option<usize>)
        ensures
            match r {
                Some(i) => i < self.rows().len() && keyed(self.rows()[i as int], who, asset@),
                None => !has_row(self.rows(), who, asset@),
            },
    {
        let mut i: usize = 0;
        while i < self.entries.len()
            invariant
                i <= self.entries.len(),
                self.entries@.len() == self.rows().len(),
                forall|j: int| 0 <= j < i ==> !keyed(#[trigger] self.rows()[j], who, asset@),
            decreases self.entries.len() - i,
        {
            if self.entries[i].who == who && self.entries[i].asset == *asset {
                return Some(i);
            }
            i += 1;
        }
        None
    }

    /// The amount of `who` in `asset`.
    pub fn get(&self, who: AccountId, asset: &AssetId) -> (r: Balance)
        ensures
            r == self@[(who, asset@)],
    {
        proof {
            use_type_invariant(self);
        }
        match self.position(who, asset) {
            Some(i) => {
                proof {
                    lemma_amount_of_row(self.rows(), i as int);
                }
                self.entries[i].amount
            },
            None => {
                proof {
                    lemma_amount_absent(self.rows(), who, asset@);
                }
                0
            },
        }
    }

    /// Sets the amount of `who` in `asset`.
    pub fn insert(&mut self, who: AccountId, asset: &AssetId, amount: Balance)
        ensures
            final(self).wf(),
            final(self)@ == old(self)@.insert((who, asset@), amount),
            final(self).rows() == rows_with(old(self).rows(), who, asset@, amount),
            forall|a: Seq<u8>|
                #[trigger] final(self).total(a) == if a == asset@ {
                    old(self).total(a) - old(self)@[(who, asset@)] + amount
                } else {
                    old(self).total(a) as int
                },
    {
        proof {
            use_type_invariant(&*self);
        }
        let ghost rows = self.rows();
        let found = self.position(who, asset);
        let mut entries: Vec<BalanceEntry> = Vec::new();
        assert(rows_of(entries@) =~= Seq::<Row>::empty());
        core::mem::swap(&mut self.entries, &mut entries);
        match found {
            Some(i) => {
                proof {
                    lemma_amount_of_row(rows, i as int);
                    let j = choose|j: int| 0 <= j < rows.len() && keyed(#[trigger] rows[j], who, asset@);
                    if j < i {
                        assert(!keyed(rows[j], rows[i as int].who, rows[i as int].asset));
                    } else if i < j {
                        assert(!keyed(rows[i as int], rows[j].who, rows[j].asset));
                    }
                    assert(j == i);
                }
                if amount == 0 {
                    entries.remove(i);
                    proof {
                        assert(rows_of(entries@) =~= rows.remove(i as int));
                        lemma_remove(rows, i as int, who, asset@);
                    }
                } else {
                    entries.set(i, BalanceEntry { who, asset: asset.clone(), amount });
                    proof {
                        let next = rows.update(i as int, Row { amount, ..rows[i as int] });
                        assert(rows_of(entries@) =~= next);
                        assert(next == rows.update(i as int, Row { who, asset: asset@, amount }));
                        lemma_update(rows, i as int, amount, who, asset@);
                    }
                }
            },
            None => {
                proof {
                    lemma_amount_absent(rows, who, asset@);
                }
                if amount != 0 {
                    entries.push(BalanceEntry { who, asset: asset.clone(), amount });
                    proof {
                        let row = Row { who, asset: asset@, amount };
                        assert(rows_of(entries@) =~= rows.push(row));
                        lemma_push(rows, row, who, asset@);
                    }
                }
            },
        }
        proof {
            let next = rows_of(entries@);
            assert(next == rows_with(rows, who, asset@, amount));
            lemma_rows_with(rows, who, asset@, amount);
            lemma_rows_with_no_zero(rows, who, asset@, amount);
        }
        core::mem::swap(&mut self.entries, &mut entries);
        assert(self@ =~= old(self)@.insert((who, asset@), amount)) by {
            assert forall|k: (AccountId, Seq<u8>)|
                amount_in(self.rows(), k.0, k.1) == if k == (who, asset@) {
                    amount
                } else {
                    amount_in(rows, k.0, k.1)
                } by {
                lemma_rows_with_reads(rows, who, asset@, amount, k.0, k.1);
            }
        }
        assert forall|a: Seq<u8>|
            #[trigger] self.total(a) == if a == asset@ {
                old(self).total(a) - old(self)@[(who, asset@)] + amount
            } else {
                old(self).total(a) as int
            } by {
            lemma_rows_with_sum(rows, who, asset@, amount, a);
        }
    }
}

/// One slot of an asset table, as the contracts see it.
pub struct Slot<V> {
    pub key: Seq<u8>,
    pub value: V,
}

/// No two slots share a key.
pub open spec fn distinct_slots<V>(slots: Seq<Slot<V>>) -> bool {
    forall|i: int, j: int|
        0 <= i < j < slots.len() ==> (#[trigger] slots[i]).key != (#[trigger] slots[j]).key
}

/// Whether some slot holds `key`.
pub open spec fn has_slot<V>(slots: Seq<Slot<V>>, key: Seq<u8>) -> bool {
    exists|i: int| 0 <= i < slots.len() && (#[trigger] slots[i]).key == key
}

/// The index of the slot that holds `key`.
pub open spec fn slot_index<V>(slots: Seq<Slot<V>>, key: Seq<u8>) -> int {
    choose|i: int| 0 <= i < slots.len() && (#[trigger] slots[i]).key == key
}

/// The map that `slots` stand for.
pub open spec fn slots_map<V>(slots: Seq<Slot<V>>) -> Map<Seq<u8>, V> {
    Map::new(|k: Seq<u8>| has_slot(slots, k), |k: Seq<u8>| slots[slot_index(slots, k)].value)
}

/// The keys of `slots`, in order.
pub open spec fn slot_keys<V>(slots: Seq<Slot<V>>) -> Seq<Seq<u8>> {
    Seq::new(slots.len(), |i: int| slots[i].key)
}

/// The slots after `value` is recorded for `key`: in place where the key has
/// a slot, at the end where it has none.
pub open spec fn slots_with<V>(slots: Seq<Slot<V>>, key: Seq<u8>, value: V) -> Seq<Slot<V>> {
    if has_slot(slots, key) {
        slots.update(slot_index(slots, key), Slot { key, value })
    } else {
        slots.push(Slot { key, value })
    }
}

/// The slots without the slot of `key`.
pub open spec fn slots_without<V>(slots: Seq<Slot<V>>, key: Seq<u8>) -> Seq<Slot<V>> {
    if has_slot(slots, key) {
        slots.remove(slot_index(slots, key))
    } else {
        slots
    }
}

/// With distinct keys, a slot is found at its own index.
pub proof fn lemma_slot_unique<V>(slots: Seq<Slot<V>>, i: int)
    requires
        distinct_slots(slots),
        0 <= i < slots.len(),
    ensures
        has_slot(slots, slots[i].key),
        slot_index(slots, slots[i].key) == i,
        slots_map(slots).contains_key(slots[i].key),
        slots_map(slots)[slots[i].key] == slots[i].value,
{
    let j = slot_index(slots, slots[i].key);
    if j < i {
        assert(slots[j].key != slots[i].key);
    } else if i < j {
        assert(slots[i].key != slots[j].key);
    }
}

/// Replacing the value of slot `i` is a map insertion at its key.
pub proof fn lemma_slot_update<V>(slots: Seq<Slot<V>>, i: int, value: V)
    requires
        distinct_slots(slots),
        0 <= i < slots.len(),
    ensures
        distinct_slots(slots.update(i, Slot { key: slots[i].key, value })),
        slots_map(slots.update(i, Slot { key: slots[i].key, value })) == slots_map(slots).insert(
            slots[i].key,
            value,
        ),
        slot_keys(slots.update(i, Slot { key: slots[i].key, value })) == slot_keys(slots),
{
    let next = slots.update(i, Slot { key: slots[i].key, value });
    assert(distinct_slots(next)) by {
        assert forall|a: int, b: int| 0 <= a < b < next.len() implies (#[trigger] next[a]).key != (
        #[trigger] next[b]).key by {
            assert(slots[a].key != slots[b].key);
        }
    }
    assert(slot_keys(next) =~= slot_keys(slots));
    assert forall|k: Seq<u8>| has_slot(next, k) == (has_slot(slots, k) || k == slots[i].key) by {
        if has_slot(next, k) {
            let j = slot_index(next, k);
            assert(slots[j].key == k);
        }
        if has_slot(slots, k) {
            let j = slot_index(slots, k);
            assert(next[j].key == k);
        }
        if k == slots[i].key {
            assert(next[i].key == k);
        }
    }
    assert forall|k: Seq<u8>| has_slot(next, k) implies #[trigger] slots_map(next)[k] == slots_map(
        slots,
    ).insert(slots[i].key, value)[k] by {
        let j = slot_index(next, k);
        lemma_slot_unique(next, j);
        assert(slots[j].key == k);
        lemma_slot_unique(slots, j);
    }
    assert(slots_map(next) =~= slots_map(slots).insert(slots[i].key, value));
}

/// Appending a slot for a new key is a map insertion.
pub proof fn lemma_slot_push<V>(slots: Seq<Slot<V>>, slot: Slot<V>)
    requires
        distinct_slots(slots),
        !has_slot(slots, slot.key),
    ensures
        distinct_slots(slots.push(slot)),
        slots_map(slots.push(slot)) == slots_map(slots).insert(slot.key, slot.value),
        slot_keys(slots.push(slot)) == slot_keys(slots).push(slot.key),
{
    let next = slots.push(slot);
    assert(distinct_slots(next)) by {
        assert forall|a: int, b: int| 0 <= a < b < next.len() implies (#[trigger] next[a]).key != (
        #[trigger] next[b]).key by {
            if b < slots.len() {
                assert(slots[a].key != slots[b].key);
            } else {
                assert(slots[a].key != slot.key);
            }
        }
    }
    assert(slot_keys(next) =~= slot_keys(slots).push(slot.key));
    assert forall|k: Seq<u8>| has_slot(next, k) == (has_slot(slots, k) || k == slot.key) by {
        if has_slot(next, k) {
            let j = slot_index(next, k);
            if j < slots.len() {
                assert(slots[j].key == k);
            }
        }
        if has_slot(slots, k) {
            let j = slot_index(slots, k);
            assert(next[j].key == k);
        }
        if k == slot.key {
            assert(next[slots.len() as int].key == k);
        }
    }
    assert forall|k: Seq<u8>| has_slot(next, k) implies #[trigger] slots_map(next)[k] == slots_map(
        slots,
    ).insert(slot.key, slot.value)[k] by {
        let j = slot_index(next, k);
        lemma_slot_unique(next, j);
        if j < slots.len() {
            assert(slots[j].key == k);
            lemma_slot_unique(slots, j);
        }
    }
    assert(slots_map(next) =~= slots_map(slots).insert(slot.key, slot.value));
}

/// Removing slot `i` is a map removal at its key.
pub proof fn lemma_slot_remove<V>(slots: Seq<Slot<V>>, i: int)
    requires
        distinct_slots(slots),
        0 <= i < slots.len(),
    ensures
        distinct_slots(slots.remove(i)),
        slots_map(slots.remove(i)) == slots_map(slots).remove(slots[i].key),
        slot_keys(slots.remove(i)) == slot_keys(slots).remove(i),
{
    let next = slots.remove(i);
    assert(distinct_slots(next)) by {
        assert forall|a: int, b: int| 0 <= a < b < next.len() implies (#[trigger] next[a]).key != (
        #[trigger] next[b]).key by {
            let a0 = if a < i { a } else { a + 1 };
            let b0 = if b < i { b } else { b + 1 };
            assert(slots[a0].key != slots[b0].key);
        }
    }
    assert(slot_keys(next) =~= slot_keys(slots).remove(i));
    assert forall|k: Seq<u8>| has_slot(next, k) == (has_slot(slots, k) && k != slots[i].key) by {
        if has_slot(next, k) {
            let j = slot_index(next, k);
            let j0 = if j < i { j } else { j + 1 };
            assert(slots[j0].key == k);
            if j0 < i {
                assert(slots[j0].key != slots[i].key);
            } else {
                assert(slots[i].key != slots[j0].key);
            }
        }
        if has_slot(slots, k) && k != slots[i].key {
            let j = slot_index(slots, k);
            let j1 = if j < i { j } else { j - 1 };
            assert(next[j1].key == k);
        }
    }
    assert forall|k: Seq<u8>| has_slot(next, k) implies #[trigger] slots_map(next)[k] == slots_map(
        slots,
    ).remove(slots[i].key)[k] by {
        let j = slot_index(next, k);
        lemma_slot_unique(next, j);
        let j0 = if j < i { j } else { j + 1 };
        assert(slots[j0].key == k);
        lemma_slot_unique(slots, j0);
    }
    assert(slots_map(next) =~= slots_map(slots).remove(slots[i].key));
}

/// One stored slot: an asset and what is recorded for it.
pub struct AssetEntry<V> {
    pub key: AssetId,
    pub value: V,
}

/// The slots that `entries` stand for.
pub open spec fn slots_of<V>(entries: Seq<AssetEntry<V>>) -> Seq<Slot<V>> {
    Seq::new(entries.len(), |i: int| Slot { key: entries[i].key@, value: entries[i].value })
}

/// A table from assets to values, kept in the order in which the assets were
/// first inserted.
pub struct AssetMap<V> {
    entries: Vec<AssetEntry<V>>,
}

impl<V> View for AssetMap<V> {
    type V = Map<Seq<u8>, V>;

    open spec fn view(&self) -> Map<Seq<u8>, V> {
        slots_map(self.slots())
    }
}

impl<V> AssetMap<V> {
    /// The stored slots, in order.
    pub closed spec fn slots(&self) -> Seq<Slot<V>> {
        slots_of(self.entries@)
    }

    /// Keys are distinct.
    #[verifier::type_invariant]
    pub open spec fn wf(&self) -> bool {
        distinct_slots(self.slots())
    }

    /// The stored assets, in order.
    pub open spec fn keys(&self) -> Seq<Seq<u8>> {
        slot_keys(self.slots())
    }

}

impl<V: Copy> AssetMap<V> {
    /// A table without slots.
    pub fn new() -> (m: Self)
        ensures
            m.slots() == Seq::<Slot<V>>::empty(),
            m@ == Map::<Seq<u8>, V>::empty(),
            m.wf(),
    {
        let m = AssetMap { entries: Vec::new() };
        assert(m.slots() =~= Seq::<Slot<V>>::empty());
        assert(m@ =~= Map::<Seq<u8>, V>::empty());
        m
    }

    /// The number of slots.
    pub fn len(&self) -> (n: usize)
        ensures
            n == self.slots().len(),
    {
        self.entries.len()
    }

    /// Slot `i`.
    pub fn entry(&self, i: usize) -> (e: &AssetEntry<V>)
        requires
            i < self.slots().len(),
        ensures
            e.key@ == self.slots()[i as int].key,
            e.value == self.slots()[i as int].value,
            self@.contains_key(e.key@),
            self@[e.key@] == e.value,
    {
        proof {
            use_type_invariant(self);
            lemma_slot_unique(self.slots(), i as int);
        }
        &self.entries[i]
    }

    /// The index of the slot of `key`, if there is one.
    fn position(&self, key: &AssetId) -> (r: Option<usize>)
        ensures
            match r {
                Some(i) => i < self.slots().len() && self.slots()[i as int].key == key@,
                None => !has_slot(self.slots(), key@),
            },
    {
        let mut i: usize = 0;
        while i < self.entries.len()
            invariant
                i <= self.entries.len(),
                self.entries@.len() == self.slots().len(),
                forall|j: int| 0 <= j < i ==> (#[trigger] self.slots()[j]).key != key@,
            decreases self.entries.len() - i,
        {
            if self.entries[i].key == *key {
                return Some(i);
            }
            i += 1;
        }
        None
    }

    /// What is recorded for `key`.
    pub fn get(&self, key: &AssetId) -> (r: Option<V>)
        ensures
            r == if self@.contains_key(key@) {
                Some(self@[key@])
            } else {
                None
            },
    {
        proof {
            use_type_invariant(self);
        }
        match self.position(key) {
            Some(i) => {
                proof {
                    lemma_slot_unique(self.slots(), i as int);
                }
                Some(self.entries[i].value)
            },
            None => None,
        }
    }

    /// Whether anything is recorded for `key`.
    pub fn contains_key(&self, key: &AssetId) -> (r: bool)
        ensures
            r == self@.contains_key(key@),
    {
        self.position(key).is_some()
    }

    /// Records `value` for `key`, in place of what was recorded before.
    pub fn insert(&mut self, key: &AssetId, value: V)
        ensures
            final(self).wf(),
            final(self)@ == old(self)@.insert(key@, value),
            final(self).slots() == slots_with(old(self).slots(), key@, value),
            final(self).keys() == if old(self)@.contains_key(key@) {
                old(self).keys()
            } else {
                old(self).keys().push(key@)
            },
    {
        proof {
            use_type_invariant(&*self);
        }
        let ghost slots = self.slots();
        let found = self.position(key);
        let mut entries: Vec<AssetEntry<V>> = Vec::new();
        assert(slots_of(entries@) =~= Seq::<Slot<V>>::empty());
        core::mem::swap(&mut self.entries, &mut entries);
        match found {
            Some(i) => {
                entries.set(i, AssetEntry { key: key.clone(), value });
                proof {
                    assert(slots_of(entries@) =~= slots.update(
                        i as int,
                        Slot { key: slots[i as int].key, value },
                    ));
                    lemma_slot_update(slots, i as int, value);
                    lemma_slot_unique(slots, i as int);
                }
            },
            None => {
                entries.push(AssetEntry { key: key.clone(), value });
                proof {
                    assert(slots_of(entries@) =~= slots.push(Slot { key: key@, value }));
                    lemma_slot_push(slots, Slot { key: key@, value });
                }
            },
        }
        core::mem::swap(&mut self.entries, &mut entries);
    }

    /// Forgets what is recorded for `key`, and returns it.
    pub fn remove(&mut self, key: &AssetId) -> (r: Option<V>)
        ensures
            final(self).wf(),
            final(self)@ == old(self)@.remove(key@),
            final(self).slots() == slots_without(old(self).slots(), key@),
            final(self).keys() == slot_keys(slots_without(old(self).slots(), key@)),
            r == if old(self)@.contains_key(key@) {
                Some(old(self)@[key@])
            } else {
                None
            },
    {
        proof {
            use_type_invariant(&*self);
        }
        let ghost slots = self.slots();
        let found = self.position(key);
        match found {
            Some(i) => {
                let mut entries: Vec<AssetEntry<V>> = Vec::new();
                assert(slots_of(entries@) =~= Seq::<Slot<V>>::empty());
                core::mem::swap(&mut self.entries, &mut entries);
                let gone = entries.remove(i);
                proof {
                    assert(slots_of(entries@) =~= slots.remove(i as int));
                    lemma_slot_remove(slots, i as int);
                    lemma_slot_unique(slots, i as int);
                }
                core::mem::swap(&mut self.entries, &mut entries);
                Some(gone.value)
            },
            None => {
                assert(self@ =~= old(self)@.remove(key@));
                None
            },
        }
    }
}

} // verus!
