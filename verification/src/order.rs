//! The lexicographic order of byte sequences, and the place of a sequence
//! in a list that is kept in that order.

use vstd::prelude::*;

verus! {

/// Whether `a` comes before `b` in the lexicographic order of bytes.
pub open spec fn lex_lt(a: Seq<u8>, b: Seq<u8>) -> bool
    decreases a.len(),
{
    if b.len() == 0 {
        false
    } else if a.len() == 0 {
        true
    } else if a[0] != b[0] {
        a[0] < b[0]
    } else {
        lex_lt(a.skip(1), b.skip(1))
    }
}

/// Where `x` goes in `list`: behind its last element that comes before `x`.
pub open spec fn rank(list: Seq<Seq<u8>>, x: Seq<u8>) -> int
    decreases list.len(),
{
    if list.len() == 0 {
        0
    } else if lex_lt(list.last(), x) {
        list.len() as int
    } else {
        rank(list.drop_last(), x)
    }
}

/// A rank lies within the list.
pub proof fn lemma_rank_bounds(list: Seq<Seq<u8>>, x: Seq<u8>)
    ensures
        0 <= rank(list, x) <= list.len(),
    decreases list.len(),
{
    if list.len() > 0 && !lex_lt(list.last(), x) {
        lemma_rank_bounds(list.drop_last(), x);
    }
}

/// Whether the bytes of `a` come before those of `b` in lexicographic order.
pub fn bytes_lt(a: &Vec<u8>, b: &Vec<u8>) -> (r: bool)
    ensures
        r == lex_lt(a@, b@),
{
    let mut i: usize = 0;
    assert(a@.skip(0) == a@ && b@.skip(0) == b@);
    while i < a.len() && i < b.len()
        invariant
            i <= a.len(),
            i <= b.len(),
            lex_lt(a@, b@) == lex_lt(a@.skip(i as int), b@.skip(i as int)),
        decreases a.len() - i,
    {
        let ghost x = a@.skip(i as int);
        let ghost y = b@.skip(i as int);
        assert(x[0] == a@[i as int] && y[0] == b@[i as int]);
        if a[i] != b[i] {
            return a[i] < b[i];
        }
        assert(x.skip(1) == a@.skip(i + 1));
        assert(y.skip(1) == b@.skip(i + 1));
        i += 1;
    }
    i < b.len()
}

/// No element occurs twice.
pub open spec fn no_repeat(list: Seq<Seq<u8>>) -> bool {
    forall|i: int, j: int| 0 <= i < j < list.len() ==> list[i] != list[j]
}

/// The bytes of each element of `keys`.
pub open spec fn deep(keys: Seq<Vec<u8>>) -> Seq<Seq<u8>> {
    Seq::new(keys.len(), |i: int| keys[i]@)
}

/// The rank of `key` among `keys`.
pub fn place(keys: &Vec<Vec<u8>>, key: &Vec<u8>) -> (r: usize)
    ensures
        r == rank(deep(keys@), key@),
        r <= keys.len(),
{
    let mut j: usize = keys.len();
    assert(deep(keys@).take(j as int) == deep(keys@));
    while j > 0
        invariant
            j <= keys.len(),
            rank(deep(keys@), key@) == rank(deep(keys@).take(j as int), key@),
        decreases j,
    {
        let ghost list = deep(keys@).take(j as int);
        assert(list.last() == keys[j - 1]@);
        if bytes_lt(&keys[j - 1], key) {
            return j;
        }
        assert(list.drop_last() == deep(keys@).take(j - 1));
        j -= 1;
    }
    0
}

/// Each element comes before all that follow it.
pub open spec fn ascending(list: Seq<Seq<u8>>) -> bool {
    forall|i: int, j: int| 0 <= i < j < list.len() ==> lex_lt(list[i], list[j])
}

/// Of two different sequences, one comes before the other.
pub proof fn lemma_lex_total(a: Seq<u8>, b: Seq<u8>)
    requires
        a != b,
    ensures
        lex_lt(a, b) || lex_lt(b, a),
    decreases a.len(),
{
    if a.len() > 0 && b.len() > 0 && a[0] == b[0] {
        if a.skip(1) == b.skip(1) {
            assert(a =~= seq![a[0]] + a.skip(1));
            assert(b =~= seq![b[0]] + b.skip(1));
        }
        lemma_lex_total(a.skip(1), b.skip(1));
    } else if a.len() == 0 && b.len() == 0 {
        assert(a =~= b);
    }
}

/// Coming before is transitive.
pub proof fn lemma_lex_transitive(a: Seq<u8>, b: Seq<u8>, c: Seq<u8>)
    requires
        lex_lt(a, b),
        lex_lt(b, c),
    ensures
        lex_lt(a, c),
    decreases a.len(),
{
    if a.len() > 0 && b.len() > 0 && c.len() > 0 && a[0] == b[0] && b[0] == c[0] {
        lemma_lex_transitive(a.skip(1), b.skip(1), c.skip(1));
    }
}

/// What stands before the rank of `x` comes before `x`; what stands at or
/// behind it does not, where the list ascends.
pub proof fn lemma_rank_splits(list: Seq<Seq<u8>>, x: Seq<u8>)
    requires
        ascending(list),
    ensures
        0 <= rank(list, x) <= list.len(),
        forall|j: int| 0 <= j < rank(list, x) ==> lex_lt(#[trigger] list[j], x),
        forall|j: int| rank(list, x) <= j < list.len() ==> !lex_lt(#[trigger] list[j], x),
    decreases list.len(),
{
    if list.len() > 0 {
        if lex_lt(list.last(), x) {
            assert forall|j: int| 0 <= j < list.len() implies lex_lt(#[trigger] list[j], x) by {
                if j < list.len() - 1 {
                    lemma_lex_transitive(list[j], list.last(), x);
                }
            }
        } else {
            let shorter = list.drop_last();
            assert(ascending(shorter)) by {
                assert forall|i: int, j: int| 0 <= i < j < shorter.len() implies lex_lt(
                    shorter[i],
                    shorter[j],
                ) by {
                    assert(lex_lt(list[i], list[j]));
                }
            }
            lemma_rank_splits(shorter, x);
            assert forall|j: int| 0 <= j < rank(list, x) implies lex_lt(#[trigger] list[j], x) by {
                assert(shorter[j] == list[j]);
            }
            assert forall|j: int| rank(list, x) <= j < list.len() implies !lex_lt(
                #[trigger] list[j],
                x,
            ) by {
                if j < list.len() - 1 {
                    assert(shorter[j] == list[j]);
                }
            }
        }
    }
}

/// Putting a new element in at its rank keeps an ascending list ascending.
pub proof fn lemma_insert_ascending(list: Seq<Seq<u8>>, x: Seq<u8>)
    requires
        ascending(list),
        !list.contains(x),
    ensures
        0 <= rank(list, x) <= list.len(),
        ascending(list.insert(rank(list, x), x)),
{
    lemma_rank_splits(list, x);
    let r = rank(list, x);
    let next = list.insert(r, x);
    assert forall|i: int, j: int| 0 <= i < j < next.len() implies lex_lt(next[i], next[j]) by {
        let i0 = if i < r { i } else { i - 1 };
        let j0 = if j < r { j } else { j - 1 };
        if i != r && j != r {
            assert(lex_lt(list[i0], list[j0]));
        } else if j == r {
            assert(lex_lt(list[i0], x));
        } else {
            assert(!lex_lt(list[j0], x));
            assert(list.contains(list[j0]));
            lemma_lex_total(list[j0], x);
        }
    }
}

} // verus!
