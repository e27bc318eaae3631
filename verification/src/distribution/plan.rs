//! What one redistribution cycle pays, as a function of the deposits, the
//! reward pools and the worth of each depositor's deposits.

use vstd::prelude::*;
use crate::math::{lemma_double_share, lemma_share_monotonic, mul_div};
use crate::order::{ascending, bytes_lt, lemma_insert_ascending, lemma_rank_bounds, no_repeat, rank};
use crate::primitives::{AccountId, Balance};
use crate::storage::Row;

verus! {

/// One payment out of the reward pool.
pub struct Payout {
    pub who: AccountId,
    pub asset: Seq<u8>,
    pub amount: Balance,
}

/// What a cycle starts from.
pub struct Cycle {
    /// The non-zero deposits, in the order in which the cycle visits them.
    pub rows: Seq<Row>,
    /// What the deposits of each account are worth in the stable asset.
    pub weights: Map<AccountId, Balance>,
    /// What the distribution account holds of each asset.
    pub pools: Map<Seq<u8>, Balance>,
    /// What all deposits are worth in the stable asset.
    pub total: Balance,
    /// The account that receives what is left over.
    pub treasury: AccountId,
}

/// The part of `pool` that the weight `weight` earns out of `total`, rounded
/// down; nothing where it cannot be computed.
pub open spec fn share(pool: Balance, weight: Balance, total: Balance) -> Balance {
    match mul_div(pool as nat, weight as nat, total as nat) {
        Some(v) => v,
        None => 0,
    }
}

/// What the depositor of row `i` earns of the asset of row `i`.
pub open spec fn share_at(c: Cycle, i: int) -> Balance {
    share(c.pools[c.rows[i].asset], c.weights[c.rows[i].who], c.total)
}

/// The payments to the depositors of the first `n` rows: one for each row
/// whose share is not zero.
pub open spec fn shares(c: Cycle, n: int) -> Seq<Payout>
    decreases n,
{
    if n <= 0 {
        Seq::empty()
    } else if share_at(c, n - 1) != 0 {
        shares(c, n - 1).push(
            Payout { who: c.rows[n - 1].who, asset: c.rows[n - 1].asset, amount: share_at(c, n - 1) },
        )
    } else {
        shares(c, n - 1)
    }
}

/// What the first `n` rows earn of `asset` together.
pub open spec fn distributed(c: Cycle, n: int, asset: Seq<u8>) -> nat
    decreases n,
{
    if n <= 0 {
        0
    } else {
        distributed(c, n - 1, asset) + if c.rows[n - 1].asset == asset {
            share_at(c, n - 1) as nat
        } else {
            0
        }
    }
}

/// `list` with `x` put in at its rank, unless `list` holds it already.
pub open spec fn with_asset(list: Seq<Seq<u8>>, x: Seq<u8>) -> Seq<Seq<u8>> {
    if list.contains(x) {
        list
    } else {
        list.insert(rank(list, x), x)
    }
}

/// The assets of the first `n` rows, each once, in ascending order.
pub open spec fn touched(rows: Seq<Row>, n: int) -> Seq<Seq<u8>>
    decreases n,
{
    if n <= 0 {
        Seq::empty()
    } else {
        with_asset(touched(rows, n - 1), rows[n - 1].asset)
    }
}

/// What the depositors leave of the pool of `asset`.
pub open spec fn residue(c: Cycle, asset: Seq<u8>) -> Balance {
    if distributed(c, c.rows.len() as int, asset) < c.pools[asset] {
        (c.pools[asset] - distributed(c, c.rows.len() as int, asset)) as Balance
    } else {
        0
    }
}

/// The payments to the treasury for the first `k` of `assets`: one for each
/// asset of which something is left.
pub open spec fn residues(c: Cycle, assets: Seq<Seq<u8>>, k: int) -> Seq<Payout>
    decreases k,
{
    if k <= 0 {
        Seq::empty()
    } else if residue(c, assets[k - 1]) != 0 {
        residues(c, assets, k - 1).push(
            Payout { who: c.treasury, asset: assets[k - 1], amount: residue(c, assets[k - 1]) },
        )
    } else {
        residues(c, assets, k - 1)
    }
}

/// Everything a cycle pays: nothing where the deposits are worth nothing,
/// else the shares of the depositors in the order of the rows, then what is
/// left of each asset met, to the treasury, in ascending order of the assets.
pub open spec fn plan(c: Cycle) -> Seq<Payout> {
    if c.total == 0 {
        Seq::empty()
    } else {
        shares(c, c.rows.len() as int) + residues(
            c,
            touched(c.rows, c.rows.len() as int),
            touched(c.rows, c.rows.len() as int).len() as int,
        )
    }
}

/// The sum of what `payouts` pays of `asset`.
pub open spec fn paid_out(payouts: Seq<Payout>, asset: Seq<u8>) -> nat
    decreases payouts.len(),
{
    if payouts.len() == 0 {
        0
    } else {
        paid_out(payouts.drop_last(), asset) + if payouts.last().asset == asset {
            payouts.last().amount as nat
        } else {
            0
        }
    }
}

/// Whether one of the first `n` rows is a deposit of `asset`.
pub open spec fn met(rows: Seq<Row>, n: int, asset: Seq<u8>) -> bool {
    exists|i: int| 0 <= i < n && i < rows.len() && (#[trigger] rows[i]).asset == asset
}

/// What two sequences pay together is the sum of what each pays.
pub proof fn lemma_paid_out_concat(a: Seq<Payout>, b: Seq<Payout>, asset: Seq<u8>)
    ensures
        paid_out(a + b, asset) == paid_out(a, asset) + paid_out(b, asset),
    decreases b.len(),
{
    if b.len() == 0 {
        assert(a + b == a);
    } else {
        assert((a + b).drop_last() == a + b.drop_last());
        lemma_paid_out_concat(a, b.drop_last(), asset);
    }
}

/// The shares pay of each asset what the rows earn of it.
pub proof fn lemma_shares_paid(c: Cycle, n: int, asset: Seq<u8>)
    ensures
        paid_out(shares(c, n), asset) == distributed(c, n, asset),
    decreases n,
{
    if n > 0 {
        lemma_shares_paid(c, n - 1, asset);
        if share_at(c, n - 1) != 0 {
            assert(shares(c, n).drop_last() == shares(c, n - 1));
        }
    }
}

/// Putting an asset in keeps a list free of repeats and adds just that asset.
pub proof fn lemma_with_asset(list: Seq<Seq<u8>>, x: Seq<u8>)
    requires
        no_repeat(list),
    ensures
        no_repeat(with_asset(list, x)),
        forall|y: Seq<u8>| #[trigger] with_asset(list, x).contains(y) <==> list.contains(y) || y == x,
        0 <= rank(list, x) <= list.len(),
{
    lemma_rank_bounds(list, x);
    let next = with_asset(list, x);
    if !list.contains(x) {
        let r = rank(list, x);
        assert forall|i: int, j: int| 0 <= i < j < next.len() implies next[i] != next[j] by {
            let i0 = if i < r { i } else { i - 1 };
            let j0 = if j < r { j } else { j - 1 };
            if i != r && j != r {
                assert(list[i0] != list[j0]);
            } else if i == r {
                assert(list.contains(list[j0]));
            } else {
                assert(list.contains(list[i0]));
            }
        }
        assert forall|y: Seq<u8>| #[trigger] next.contains(y) <==> list.contains(y) || y == x by {
            if next.contains(y) {
                let i = choose|i: int| 0 <= i < next.len() && next[i] == y;
                if i != r {
                    let i0 = if i < r { i } else { i - 1 };
                    assert(list[i0] == y);
                }
            }
            if list.contains(y) {
                let i = choose|i: int| 0 <= i < list.len() && list[i] == y;
                let i1 = if i < r { i } else { i + 1 };
                assert(next[i1] == y);
            }
            if y == x {
                assert(next[r] == y);
            }
        }
    }
}

/// The assets met hold no repeat, and an asset is among them exactly when a
/// row deposits it.
pub proof fn lemma_touched(rows: Seq<Row>, n: int)
    requires
        0 <= n <= rows.len(),
    ensures
        no_repeat(touched(rows, n)),
        forall|a: Seq<u8>| #[trigger] touched(rows, n).contains(a) <==> met(rows, n, a),
    decreases n,
{
    if n > 0 {
        lemma_touched(rows, n - 1);
        lemma_with_asset(touched(rows, n - 1), rows[n - 1].asset);
        assert forall|a: Seq<u8>| #[trigger] touched(rows, n).contains(a) <==> met(rows, n, a) by {
            if met(rows, n, a) {
                let i = choose|i: int| 0 <= i < n && i < rows.len() && (#[trigger] rows[i]).asset == a;
                if i < n - 1 {
                    assert(met(rows, n - 1, a));
                }
            }
            if met(rows, n - 1, a) {
                let i = choose|i: int|
                    0 <= i < n - 1 && i < rows.len() && (#[trigger] rows[i]).asset == a;
                assert(rows[i].asset == a);
            }
            if a == rows[n - 1].asset {
                assert(rows[n - 1].asset == a);
            }
        }
    } else {
        assert forall|a: Seq<u8>| #[trigger] touched(rows, n).contains(a) <==> met(rows, n, a) by {
        }
    }
}

/// The assets met stand in ascending order.
pub proof fn lemma_touched_ascending(rows: Seq<Row>, n: int)
    requires
        0 <= n <= rows.len(),
    ensures
        ascending(touched(rows, n)),
    decreases n,
{
    if n > 0 {
        lemma_touched_ascending(rows, n - 1);
        if !touched(rows, n - 1).contains(rows[n - 1].asset) {
            lemma_insert_ascending(touched(rows, n - 1), rows[n - 1].asset);
        }
    }
}

/// Rows that do not deposit an asset earn nothing of it.
pub proof fn lemma_unmet(c: Cycle, n: int, asset: Seq<u8>)
    requires
        0 <= n <= c.rows.len(),
        !met(c.rows, n, asset),
    ensures
        distributed(c, n, asset) == 0,
    decreases n,
{
    if n > 0 {
        assert(c.rows[n - 1].asset != asset);
        assert(!met(c.rows, n - 1, asset)) by {
            if met(c.rows, n - 1, asset) {
                let i = choose|i: int|
                    0 <= i < n - 1 && i < c.rows.len() && (#[trigger] c.rows[i]).asset == asset;
                assert(c.rows[i].asset == asset);
            }
        }
        lemma_unmet(c, n - 1, asset);
    }
}

/// Of an asset among the first `k` of a list without repeats, the residues
/// pay what is left of it; of another asset they pay nothing.
pub proof fn lemma_residues_paid(c: Cycle, assets: Seq<Seq<u8>>, k: int, asset: Seq<u8>)
    requires
        no_repeat(assets),
        0 <= k <= assets.len(),
    ensures
        paid_out(residues(c, assets, k), asset) == if assets.take(k).contains(asset) {
            residue(c, asset) as nat
        } else {
            0
        },
    decreases k,
{
    if k > 0 {
        lemma_residues_paid(c, assets, k - 1, asset);
        if residue(c, assets[k - 1]) != 0 {
            assert(residues(c, assets, k).drop_last() == residues(c, assets, k - 1));
        }
        let shorter = assets.take(k - 1);
        let longer = assets.take(k);
        assert(longer == shorter.push(assets[k - 1]));
        if shorter.contains(asset) {
            let i = choose|i: int| 0 <= i < shorter.len() && shorter[i] == asset;
            assert(assets[i] != assets[k - 1]);
            assert(longer[i] == asset);
        } else if assets[k - 1] == asset {
            assert(longer[k - 1] == asset);
        } else {
            if longer.contains(asset) {
                let i = choose|i: int| 0 <= i < longer.len() && longer[i] == asset;
                assert(shorter[i] == asset);
            }
        }
    } else {
        assert(!assets.take(k).contains(asset));
    }
}

/// The worth of the depositors of the first `n` rows that deposit `asset`,
/// added up.
pub open spec fn weight_sum(c: Cycle, n: int, asset: Seq<u8>) -> nat
    decreases n,
{
    if n <= 0 {
        0
    } else {
        weight_sum(c, n - 1, asset) + if c.rows[n - 1].asset == asset {
            c.weights[c.rows[n - 1].who] as nat
        } else {
            0
        }
    }
}

/// What the depositors of an asset earn of it is to the pool at most as
/// their worth is to the total.
pub proof fn lemma_shares_by_weight(c: Cycle, n: int, asset: Seq<u8>)
    requires
        c.total > 0,
    ensures
        distributed(c, n, asset) * c.total <= c.pools[asset] * weight_sum(c, n, asset),
    decreases n,
{
    if n > 0 {
        lemma_shares_by_weight(c, n - 1, asset);
        if c.rows[n - 1].asset == asset {
            let pool = c.pools[asset] as int;
            let weight = c.weights[c.rows[n - 1].who] as int;
            let total = c.total as int;
            let s = share_at(c, n - 1) as int;
            assert(s * total <= pool * weight) by {
                vstd::arithmetic::div_mod::lemma_fundamental_div_mod(pool * weight, total);
                vstd::arithmetic::mul::lemma_mul_is_commutative(total, (pool * weight) / total);
                assert(0 <= pool * weight) by (nonlinear_arith)
                    requires
                        0 <= pool,
                        0 <= weight,
                ;
                if s == 0 {
                    assert(s * total == 0) by (nonlinear_arith)
                        requires
                            s == 0,
                    ;
                }
            }
            let d = distributed(c, n - 1, asset) as int;
            let w = weight_sum(c, n - 1, asset) as int;
            assert((d + s) * total <= pool * (w + weight)) by (nonlinear_arith)
                requires
                    d * total <= pool * w,
                    s * total <= pool * weight,
            ;
        }
    } else {
        assert(distributed(c, n, asset) * c.total == 0) by (nonlinear_arith)
            requires
                distributed(c, n, asset) == 0,
        ;
        assert(c.pools[asset] * weight_sum(c, n, asset) == 0) by (nonlinear_arith)
            requires
                weight_sum(c, n, asset) == 0,
        ;
    }
}

/// Where the depositors of an asset are together worth no more than all
/// deposits, their shares do not exceed the pool.
pub proof fn lemma_shares_within_pool(c: Cycle, asset: Seq<u8>)
    requires
        c.total > 0,
        weight_sum(c, c.rows.len() as int, asset) <= c.total,
    ensures
        distributed(c, c.rows.len() as int, asset) <= c.pools[asset],
{
    let n = c.rows.len() as int;
    lemma_shares_by_weight(c, n, asset);
    let d = distributed(c, n, asset) as int;
    let w = weight_sum(c, n, asset) as int;
    let pool = c.pools[asset] as int;
    let total = c.total as int;
    assert(d <= pool) by (nonlinear_arith)
        requires
            d * total <= pool * w,
            0 <= w <= total,
            total > 0,
            0 <= pool,
            0 <= d,
    ;
}

/// A cycle pays out the whole reward pool of every asset that has a
/// depositor, the shares to the depositors and the rest to the treasury,
/// provided that the deposits are worth something and that the shares do not
/// exceed the pool.
pub proof fn lemma_cycle_drains_pool(c: Cycle, asset: Seq<u8>)
    requires
        c.total != 0,
        met(c.rows, c.rows.len() as int, asset),
        distributed(c, c.rows.len() as int, asset) <= c.pools[asset],
    ensures
        paid_out(plan(c), asset) == c.pools[asset],
        paid_out(shares(c, c.rows.len() as int), asset) + residue(c, asset) == c.pools[asset],
{
    let n = c.rows.len() as int;
    let list = touched(c.rows, n);
    lemma_touched(c.rows, n);
    assert(list.contains(asset));
    lemma_paid_out_concat(shares(c, n), residues(c, list, list.len() as int), asset);
    lemma_shares_paid(c, n, asset);
    lemma_residues_paid(c, list, list.len() as int, asset);
    assert(list.take(list.len() as int) == list);
}

/// A cycle pays nothing of an asset that has no depositor.
pub proof fn lemma_cycle_spares_unmet(c: Cycle, asset: Seq<u8>)
    requires
        !met(c.rows, c.rows.len() as int, asset),
    ensures
        paid_out(plan(c), asset) == 0,
{
    let n = c.rows.len() as int;
    let list = touched(c.rows, n);
    lemma_touched(c.rows, n);
    lemma_paid_out_concat(shares(c, n), residues(c, list, list.len() as int), asset);
    lemma_shares_paid(c, n, asset);
    lemma_unmet(c, n, asset);
    lemma_residues_paid(c, list, list.len() as int, asset);
    assert(list.take(list.len() as int) == list);
}

/// The weight of the depositor of a row is among the weights added up for
/// the asset of that row.
pub proof fn lemma_weight_in_sum(c: Cycle, n: int, i: int)
    requires
        0 <= i < n <= c.rows.len(),
    ensures
        c.weights[c.rows[i].who] <= weight_sum(c, n, c.rows[i].asset),
    decreases n,
{
    if i < n - 1 {
        lemma_weight_in_sum(c, n - 1, i);
    }
}

/// A weight within the total earns a share that can be computed and lies
/// within the pool.
pub proof fn lemma_share_fits(pool: Balance, weight: Balance, total: Balance)
    requires
        total > 0,
        weight <= total,
    ensures
        mul_div(pool as nat, weight as nat, total as nat) is Some,
        share(pool, weight, total) == (pool as nat) * (weight as nat) / (total as nat),
        share(pool, weight, total) <= pool,
{
    crate::math::lemma_mul_div_bound(weight as nat, pool as nat, total as nat);
    vstd::arithmetic::mul::lemma_mul_is_commutative(pool as int, weight as int);
}

/// Of the same pool, twice the weight earns twice the share or one unit
/// more, where the larger share can be computed.
pub proof fn lemma_shares_proportional(pool: Balance, weight: Balance, total: Balance)
    requires
        total > 0,
        2 * weight <= Balance::MAX,
        mul_div(pool as nat, (2 * weight) as nat, total as nat) is Some,
    ensures
        2 * share(pool, weight, total) <= share(pool, (2 * weight) as Balance, total) <= 2 * share(
            pool,
            weight,
            total,
        ) + 1,
{
    lemma_double_share(pool as nat, weight as nat, total as nat);
    lemma_share_monotonic(pool as nat, weight as nat, (2 * weight) as nat, total as nat);
}

/// What a cycle remembers of an asset it has met.
pub struct Memo {
    /// The asset.
    pub asset: crate::primitives::assets::AssetId,
    /// What the distribution account held of it when it was first met.
    pub pool: Balance,
    /// What the depositors have earned of it so far.
    pub distributed: Balance,
}

/// The assets of `memo`, in order.
pub open spec fn memo_assets(memo: Seq<Memo>) -> Seq<Seq<u8>> {
    Seq::new(memo.len(), |i: int| memo[i].asset@)
}

/// The index at which `memo` remembers `asset`, if it does.
pub fn find(memo: &Vec<Memo>, asset: &crate::primitives::assets::AssetId) -> (r: Option<usize>)
    ensures
        match r {
            Some(i) => i < memo.len() && memo[i as int].asset@ == asset@,
            None => !memo_assets(memo@).contains(asset@),
        },
{
    let mut i: usize = 0;
    while i < memo.len()
        invariant
            i <= memo.len(),
            forall|j: int| 0 <= j < i ==> memo_assets(memo@)[j] != asset@,
        decreases memo.len() - i,
    {
        if memo[i].asset == *asset {
            return Some(i);
        }
        i += 1;
    }
    None
}

/// The rank of `asset` among the assets of `memo`.
pub fn slot_for(memo: &Vec<Memo>, asset: &crate::primitives::assets::AssetId) -> (r: usize)
    ensures
        r == rank(memo_assets(memo@), asset@),
        r <= memo.len(),
{
    let mut j: usize = memo.len();
    assert(memo_assets(memo@).take(j as int) == memo_assets(memo@));
    while j > 0
        invariant
            j <= memo.len(),
            rank(memo_assets(memo@), asset@) == rank(memo_assets(memo@).take(j as int), asset@),
        decreases j,
    {
        let ghost list = memo_assets(memo@).take(j as int);
        assert(list.last() == memo[j - 1].asset@);
        if bytes_lt(memo[j - 1].asset.as_bytes(), asset.as_bytes()) {
            return j;
        }
        assert(list.drop_last() == memo_assets(memo@).take(j - 1));
        j -= 1;
    }
    0
}

} // verus!
