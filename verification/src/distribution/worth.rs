//! How the worth of the single deposits relates to the worth of all deposits
//! together: why the shares of a cycle never exceed the pool.

use vstd::prelude::*;
use vstd::arithmetic::div_mod::lemma_fundamental_div_mod;
use crate::distribution::plan::{weight_sum, Cycle};
use crate::math::capped;
use crate::primitives::prices::{quotient, worth, worth_of_rows, worth_of_slots, Price, PRICE_DIV};
use crate::primitives::{AccountId, Balance};
use crate::storage::{
    asset_sum, distinct_keys, distinct_slots, has_row, has_slot, keyed, Row, Slot,
};

verus! {

/// What one row is worth in the stable asset.
pub open spec fn row_worth(quotes: Map<Seq<u8>, Price>, stable: Seq<u8>, row: Row) -> nat {
    worth(quotes, stable, row.asset, row.amount)
}

/// What all rows are worth together.
pub open spec fn all_worth(quotes: Map<Seq<u8>, Price>, stable: Seq<u8>, rows: Seq<Row>) -> nat
    decreases rows.len(),
{
    if rows.len() == 0 {
        0
    } else {
        all_worth(quotes, stable, rows.drop_last()) + row_worth(quotes, stable, rows.last())
    }
}

/// What those rows are worth whose account has a row of `asset` among
/// `heads`.
pub open spec fn marked(
    quotes: Map<Seq<u8>, Price>,
    stable: Seq<u8>,
    rows: Seq<Row>,
    heads: Seq<Row>,
    asset: Seq<u8>,
) -> nat
    decreases rows.len(),
{
    if rows.len() == 0 {
        0
    } else {
        marked(quotes, stable, rows.drop_last(), heads, asset) + if has_row(
            heads,
            rows.last().who,
            asset,
        ) {
            row_worth(quotes, stable, rows.last())
        } else {
            0
        }
    }
}

/// What the rows of `asset` are worth together.
pub open spec fn group(quotes: Map<Seq<u8>, Price>, stable: Seq<u8>, rows: Seq<Row>, asset: Seq<u8>) -> nat
    decreases rows.len(),
{
    if rows.len() == 0 {
        0
    } else {
        group(quotes, stable, rows.drop_last(), asset) + if rows.last().asset == asset {
            row_worth(quotes, stable, rows.last())
        } else {
            0
        }
    }
}

/// What the rows are worth, added up asset by asset over the keys of
/// `slots`.
pub open spec fn grouped(
    quotes: Map<Seq<u8>, Price>,
    stable: Seq<u8>,
    rows: Seq<Row>,
    slots: Seq<Slot<Balance>>,
) -> nat
    decreases slots.len(),
{
    if slots.len() == 0 {
        0
    } else {
        grouped(quotes, stable, rows, slots.drop_last()) + group(
            quotes,
            stable,
            rows,
            slots.last().key,
        )
    }
}

/// What `amount` of `asset` is worth where nothing holds the result at the
/// largest amount.
pub open spec fn raw_worth(quotes: Map<Seq<u8>, Price>, stable: Seq<u8>, asset: Seq<u8>, amount: nat) -> nat {
    if quotes.contains_key(asset) && quotes.contains_key(stable) {
        match quotient(quotes[asset], quotes[stable]) {
            Some(rate) => (rate.inner as nat) * amount / (PRICE_DIV as nat),
            None => 0,
        }
    } else {
        0
    }
}

/// The worth of an amount is its raw worth, held at the largest amount.
pub proof fn lemma_worth_is_capped(quotes: Map<Seq<u8>, Price>, stable: Seq<u8>, asset: Seq<u8>, amount: Balance)
    ensures
        worth(quotes, stable, asset, amount) == capped(raw_worth(quotes, stable, asset, amount as nat)),
        worth(quotes, stable, asset, amount) <= raw_worth(quotes, stable, asset, amount as nat),
        worth(quotes, stable, asset, amount) < Balance::MAX ==> worth(quotes, stable, asset, amount)
            == raw_worth(quotes, stable, asset, amount as nat),
{
}

/// The raw worth of two amounts together is at least the sum of their raw
/// worths.
pub proof fn lemma_raw_worth_superadditive(
    quotes: Map<Seq<u8>, Price>,
    stable: Seq<u8>,
    asset: Seq<u8>,
    x: nat,
    y: nat,
)
    ensures
        raw_worth(quotes, stable, asset, x) + raw_worth(quotes, stable, asset, y) <= raw_worth(
            quotes,
            stable,
            asset,
            x + y,
        ),
{
    if quotes.contains_key(asset) && quotes.contains_key(stable) {
        match quotient(quotes[asset], quotes[stable]) {
            Some(rate) => {
                let r = rate.inner as int;
                let d = PRICE_DIV as int;
                let a = r * x;
                let b = r * y;
                assert(r * (x + y) == a + b) by (nonlinear_arith)
                    requires
                        a == r * x,
                        b == r * y,
                ;
                assert(0 <= a && 0 <= b) by (nonlinear_arith)
                    requires
                        a == r * x,
                        b == r * y,
                        0 <= r,
                        0 <= x,
                        0 <= y,
                ;
                lemma_fundamental_div_mod(a, d);
                lemma_fundamental_div_mod(b, d);
                lemma_fundamental_div_mod(a + b, d);
                let qa = a / d;
                let qb = b / d;
                let qs = (a + b) / d;
                assert(qa + qb <= qs) by (nonlinear_arith)
                    requires
                        a == d * qa + a % d,
                        b == d * qb + b % d,
                        a + b == d * qs + (a + b) % d,
                        0 <= a % d < d,
                        0 <= b % d < d,
                        0 <= (a + b) % d < d,
                        d > 0,
                ;
            },
            None => {},
        }
    }
}

/// The account of a new row has a row of an asset among the old rows and
/// the new one exactly if it had one before or the new row is it.
pub proof fn lemma_has_row_push(heads: Seq<Row>, head: Row, who: AccountId, asset: Seq<u8>)
    ensures
        has_row(heads.push(head), who, asset) <==> has_row(heads, who, asset) || keyed(
            head,
            who,
            asset,
        ),
{
    let longer = heads.push(head);
    if has_row(longer, who, asset) {
        let i = choose|i: int| 0 <= i < longer.len() && keyed(#[trigger] longer[i], who, asset);
        if i < heads.len() {
            assert(keyed(heads[i], who, asset));
        }
    }
    if has_row(heads, who, asset) {
        let i = choose|i: int| 0 <= i < heads.len() && keyed(#[trigger] heads[i], who, asset);
        assert(keyed(longer[i], who, asset));
    }
    if keyed(head, who, asset) {
        assert(keyed(longer[heads.len() as int], who, asset));
    }
}

/// One more head row of the asset marks the rows of its account, and no
/// others; a head row of another asset marks nothing.
pub proof fn lemma_marked_step(
    quotes: Map<Seq<u8>, Price>,
    stable: Seq<u8>,
    rows: Seq<Row>,
    heads: Seq<Row>,
    head: Row,
    asset: Seq<u8>,
)
    requires
        !has_row(heads, head.who, head.asset),
    ensures
        marked(quotes, stable, rows, heads.push(head), asset) == marked(
            quotes,
            stable,
            rows,
            heads,
            asset,
        ) + if head.asset == asset {
            worth_of_rows(quotes, stable, rows, head.who)
        } else {
            0
        },
    decreases rows.len(),
{
    if rows.len() > 0 {
        lemma_marked_step(quotes, stable, rows.drop_last(), heads, head, asset);
        lemma_has_row_push(heads, head, rows.last().who, asset);
    }
}

/// The marked rows are worth no more than all rows.
pub proof fn lemma_marked_bound(
    quotes: Map<Seq<u8>, Price>,
    stable: Seq<u8>,
    rows: Seq<Row>,
    heads: Seq<Row>,
    asset: Seq<u8>,
)
    ensures
        marked(quotes, stable, rows, heads, asset) <= all_worth(quotes, stable, rows),
    decreases rows.len(),
{
    if rows.len() > 0 {
        lemma_marked_bound(quotes, stable, rows.drop_last(), heads, asset);
    }
}

/// The weights of the depositors of an asset add up to no more than the
/// worth of the rows that they mark.
pub proof fn lemma_weight_sum_marked(
    c: Cycle,
    quotes: Map<Seq<u8>, Price>,
    stable: Seq<u8>,
    n: int,
    asset: Seq<u8>,
)
    requires
        distinct_keys(c.rows),
        0 <= n <= c.rows.len(),
        forall|who: AccountId| #[trigger]
            c.weights[who] == capped(worth_of_rows(quotes, stable, c.rows, who)),
    ensures
        weight_sum(c, n, asset) <= marked(quotes, stable, c.rows, c.rows.take(n), asset),
    decreases n,
{
    if n > 0 {
        lemma_weight_sum_marked(c, quotes, stable, n - 1, asset);
        let heads = c.rows.take(n - 1);
        let head = c.rows[n - 1];
        assert(c.rows.take(n) == heads.push(head));
        assert(!has_row(heads, head.who, head.asset)) by {
            if has_row(heads, head.who, head.asset) {
                let i = choose|i: int|
                    0 <= i < heads.len() && keyed(#[trigger] heads[i], head.who, head.asset);
                assert(!keyed(c.rows[i], c.rows[n - 1].who, c.rows[n - 1].asset));
            }
        }
        lemma_marked_step(quotes, stable, c.rows, heads, head, asset);
        assert(c.weights[head.who] == capped(worth_of_rows(quotes, stable, c.rows, head.who)));
    }
}

/// Without rows, no group is worth anything.
pub proof fn lemma_grouped_empty(quotes: Map<Seq<u8>, Price>, stable: Seq<u8>, slots: Seq<Slot<Balance>>)
    ensures
        grouped(quotes, stable, Seq::<Row>::empty(), slots) == 0,
    decreases slots.len(),
{
    if slots.len() > 0 {
        lemma_grouped_empty(quotes, stable, slots.drop_last());
    }
}

/// One more row adds its worth to the groups exactly if its asset is a key.
pub proof fn lemma_grouped_push(
    quotes: Map<Seq<u8>, Price>,
    stable: Seq<u8>,
    rows: Seq<Row>,
    row: Row,
    slots: Seq<Slot<Balance>>,
)
    requires
        distinct_slots(slots),
    ensures
        grouped(quotes, stable, rows.push(row), slots) == grouped(quotes, stable, rows, slots)
            + if has_slot(slots, row.asset) {
            row_worth(quotes, stable, row)
        } else {
            0
        },
    decreases slots.len(),
{
    if slots.len() > 0 {
        let shorter = slots.drop_last();
        assert(distinct_slots(shorter)) by {
            assert forall|i: int, j: int| 0 <= i < j < shorter.len() implies (
            #[trigger] shorter[i]).key != (#[trigger] shorter[j]).key by {
                assert(slots[i].key != slots[j].key);
            }
        }
        lemma_grouped_push(quotes, stable, rows, row, shorter);
        assert(rows.push(row).drop_last() == rows);
        if has_slot(shorter, row.asset) {
            let i = choose|i: int| 0 <= i < shorter.len() && (#[trigger] shorter[i]).key == row.asset;
            assert(slots[i].key == row.asset);
            assert(slots[i].key != slots[slots.len() - 1].key);
        } else if slots.last().key == row.asset {
            assert(slots[slots.len() - 1].key == row.asset);
        } else {
            if has_slot(slots, row.asset) {
                let i = choose|i: int| 0 <= i < slots.len() && (#[trigger] slots[i]).key == row.asset;
                assert(shorter[i].key == row.asset);
            }
        }
    }
}

/// Where every row's asset is a key, the groups are worth what all rows are
/// worth.
pub proof fn lemma_grouped_all(
    quotes: Map<Seq<u8>, Price>,
    stable: Seq<u8>,
    rows: Seq<Row>,
    slots: Seq<Slot<Balance>>,
)
    requires
        distinct_slots(slots),
        forall|j: int| 0 <= j < rows.len() ==> has_slot(slots, (#[trigger] rows[j]).asset),
    ensures
        grouped(quotes, stable, rows, slots) == all_worth(quotes, stable, rows),
    decreases rows.len(),
{
    if rows.len() == 0 {
        assert(rows == Seq::<Row>::empty());
        lemma_grouped_empty(quotes, stable, slots);
    } else {
        let shorter = rows.drop_last();
        assert forall|j: int| 0 <= j < shorter.len() implies has_slot(
            slots,
            (#[trigger] shorter[j]).asset,
        ) by {
            assert(shorter[j] == rows[j]);
        }
        lemma_grouped_all(quotes, stable, shorter, slots);
        assert(rows == shorter.push(rows.last()));
        lemma_grouped_push(quotes, stable, shorter, rows.last(), slots);
        assert(has_slot(slots, rows[rows.len() - 1].asset));
    }
}

/// The rows of an asset are together worth no more than their sum is raw.
pub proof fn lemma_group_bound(quotes: Map<Seq<u8>, Price>, stable: Seq<u8>, rows: Seq<Row>, asset: Seq<u8>)
    ensures
        group(quotes, stable, rows, asset) <= raw_worth(quotes, stable, asset, asset_sum(rows, asset)),
    decreases rows.len(),
{
    if rows.len() > 0 {
        lemma_group_bound(quotes, stable, rows.drop_last(), asset);
        if rows.last().asset == asset {
            lemma_worth_is_capped(quotes, stable, asset, rows.last().amount);
            lemma_raw_worth_superadditive(
                quotes,
                stable,
                asset,
                asset_sum(rows.drop_last(), asset),
                rows.last().amount as nat,
            );
        }
    }
}

/// No slot is worth more than all slots together.
pub proof fn lemma_slot_within_sum(
    quotes: Map<Seq<u8>, Price>,
    stable: Seq<u8>,
    slots: Seq<Slot<Balance>>,
    i: int,
)
    requires
        0 <= i < slots.len(),
    ensures
        worth(quotes, stable, slots[i].key, slots[i].value) <= worth_of_slots(quotes, stable, slots),
    decreases slots.len(),
{
    if i < slots.len() - 1 {
        lemma_slot_within_sum(quotes, stable, slots.drop_last(), i);
    }
}

/// Where each slot holds the sum of the rows of its asset and is worth less
/// than the largest amount, the groups are worth no more than the slots.
pub proof fn lemma_grouped_bound(
    quotes: Map<Seq<u8>, Price>,
    stable: Seq<u8>,
    rows: Seq<Row>,
    slots: Seq<Slot<Balance>>,
)
    requires
        forall|i: int|
            0 <= i < slots.len() ==> (#[trigger] slots[i]).value == asset_sum(rows, slots[i].key)
                && worth(quotes, stable, slots[i].key, slots[i].value) < Balance::MAX,
    ensures
        grouped(quotes, stable, rows, slots) <= worth_of_slots(quotes, stable, slots),
    decreases slots.len(),
{
    if slots.len() > 0 {
        let shorter = slots.drop_last();
        assert forall|i: int| 0 <= i < shorter.len() implies (#[trigger] shorter[i]).value
            == asset_sum(rows, shorter[i].key) && worth(
            quotes,
            stable,
            shorter[i].key,
            shorter[i].value,
        ) < Balance::MAX by {
            assert(shorter[i] == slots[i]);
        }
        lemma_grouped_bound(quotes, stable, rows, shorter);
        let last = slots[slots.len() - 1];
        lemma_group_bound(quotes, stable, rows, last.key);
        lemma_worth_is_capped(quotes, stable, last.key, last.value);
    }
}

/// Where the total of every asset is the sum of its rows and all totals are
/// together worth less than the largest amount, the depositors of an asset
/// are together worth no more than all totals.
pub proof fn lemma_weights_within_total(
    c: Cycle,
    quotes: Map<Seq<u8>, Price>,
    stable: Seq<u8>,
    slots: Seq<Slot<Balance>>,
    asset: Seq<u8>,
)
    requires
        distinct_keys(c.rows),
        distinct_slots(slots),
        forall|who: AccountId| #[trigger]
            c.weights[who] == capped(worth_of_rows(quotes, stable, c.rows, who)),
        forall|j: int| 0 <= j < c.rows.len() ==> has_slot(slots, (#[trigger] c.rows[j]).asset),
        forall|i: int| 0 <= i < slots.len() ==> (#[trigger] slots[i]).value == asset_sum(
            c.rows,
            slots[i].key,
        ),
        worth_of_slots(quotes, stable, slots) < Balance::MAX,
    ensures
        weight_sum(c, c.rows.len() as int, asset) <= worth_of_slots(quotes, stable, slots),
{
    let n = c.rows.len() as int;
    lemma_weight_sum_marked(c, quotes, stable, n, asset);
    lemma_marked_bound(quotes, stable, c.rows, c.rows.take(n), asset);
    lemma_grouped_all(quotes, stable, c.rows, slots);
    assert forall|i: int| 0 <= i < slots.len() implies (#[trigger] slots[i]).value == asset_sum(
        c.rows,
        slots[i].key,
    ) && worth(quotes, stable, slots[i].key, slots[i].value) < Balance::MAX by {
        lemma_slot_within_sum(quotes, stable, slots, i);
    }
    lemma_grouped_bound(quotes, stable, c.rows, slots);
}

} // verus!
