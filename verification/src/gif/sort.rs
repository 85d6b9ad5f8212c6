//! Sorting of keyed counts.
use vstd::prelude::*;
use vstd::relations::{sorted_by, total_ordering};
use vstd::seq_lib::{
    group_to_multiset_ensures, lemma_fold_right_permutation, lemma_multiset_commutative, lemma_sorted_unique,
};

verus! {

/// Order by key, then by count.
pub open spec fn by_key() -> spec_fn((u32, u64), (u32, u64)) -> bool {
    |a: (u32, u64), b: (u32, u64)| a.0 < b.0 || (a.0 == b.0 && a.1 <= b.1)
}

/// Some items in order.
pub open spec fn ordered(items: Seq<(u32, u64)>) -> Seq<(u32, u64)> {
    items.sort_by(by_key())
}

/// The order is total.
proof fn lemma_by_key_total()
    ensures
        total_ordering(by_key()),
{
}

/// Putting items in order keeps each of them as often as it was there, and puts
/// none behind one that is greater.
pub proof fn lemma_ordered(items: Seq<(u32, u64)>)
    ensures
        ordered(items).to_multiset() == items.to_multiset(),
        ordered(items).len() == items.len(),
        sorted_by(ordered(items), by_key()),
{
    lemma_by_key_total();
    items.lemma_sort_by_ensures(by_key());
    broadcast use group_to_multiset_ensures;

    assert(ordered(items).to_multiset().len() == ordered(items).len());
    assert(items.to_multiset().len() == items.len());
}

/// Items that are in order and are the same as others are those in order.
proof fn lemma_is_ordered(items: Seq<(u32, u64)>, r: Seq<(u32, u64)>)
    requires
        sorted_by(r, by_key()),
        r.to_multiset() == items.to_multiset(),
    ensures
        r == ordered(items),
{
    lemma_by_key_total();
    lemma_ordered(items);
    lemma_sorted_unique(r, ordered(items), by_key());
}

/// The same items are the same in order.
pub proof fn lemma_same_order(a: Seq<(u32, u64)>, b: Seq<(u32, u64)>)
    requires
        a.to_multiset() == b.to_multiset(),
    ensures
        ordered(a) == ordered(b),
{
    lemma_ordered(a);
    lemma_is_ordered(b, ordered(a));
}

/// Merge two runs that are in order.
fn merge(a: Vec<(u32, u64)>, b: Vec<(u32, u64)>) -> (r: Vec<(u32, u64)>)
    requires
        sorted_by(a@, by_key()),
        sorted_by(b@, by_key()),
    ensures
        sorted_by(r@, by_key()),
        r@.to_multiset() == a@.to_multiset().add(b@.to_multiset()),
{
    let mut out: Vec<(u32, u64)> = Vec::new();
    let mut i: usize = 0;
    let mut j: usize = 0;
    proof {
        broadcast use group_to_multiset_ensures;

        assert(a@.take(0) =~= Seq::empty());
        assert(b@.take(0) =~= Seq::empty());
        assert(out@ =~= a@.take(0) + b@.take(0));
        lemma_multiset_commutative(a@.take(0), b@.take(0));
    }
    while i < a.len() || j < b.len()
        invariant
            i <= a@.len(),
            j <= b@.len(),
            sorted_by(a@, by_key()),
            sorted_by(b@, by_key()),
            sorted_by(out@, by_key()),
            out@.to_multiset() == a@.take(i as int).to_multiset().add(b@.take(j as int).to_multiset()),
            forall|p: int, q: int|
                0 <= p < out@.len() && i <= q < a@.len() ==> by_key()(#[trigger] out@[p], #[trigger] a@[q]),
            forall|p: int, q: int|
                0 <= p < out@.len() && j <= q < b@.len() ==> by_key()(#[trigger] out@[p], #[trigger] b@[q]),
        decreases a@.len() - i + b@.len() - j,
    {
        broadcast use group_to_multiset_ensures;

        let first = if i == a.len() {
            false
        } else if j == b.len() {
            true
        } else {
            a[i].0 < b[j].0 || (a[i].0 == b[j].0 && a[i].1 <= b[j].1)
        };
        let ghost was = out@;
        if first {
            out.push(a[i]);
            proof {
                assert(a@.take(i + 1) =~= a@.take(i as int).push(a@[i as int]));
                assert(out@.to_multiset() =~= a@.take(i + 1).to_multiset().add(b@.take(j as int).to_multiset()));
                if j < b@.len() {
                    assert(by_key()(a@[i as int], b@[j as int]));
                    assert forall|q: int| j <= q < b@.len() implies by_key()(a@[i as int], #[trigger] b@[q]) by {
                        if q > j {
                            assert(by_key()(b@[j as int], b@[q]));
                        }
                    }
                }
            }
            i = i + 1;
        } else {
            out.push(b[j]);
            proof {
                assert(b@.take(j + 1) =~= b@.take(j as int).push(b@[j as int]));
                assert(out@.to_multiset() =~= a@.take(i as int).to_multiset().add(b@.take(j + 1).to_multiset()));
                if i < a@.len() {
                    assert(by_key()(b@[j as int], a@[i as int]));
                    assert forall|q: int| i <= q < a@.len() implies by_key()(b@[j as int], #[trigger] a@[q]) by {
                        if q > i {
                            assert(by_key()(a@[i as int], a@[q]));
                        }
                    }
                }
            }
            j = j + 1;
        }
    }
    assert(a@.take(i as int) =~= a@);
    assert(b@.take(j as int) =~= b@);
    out
}

/// Sort a range of some items.
fn sorted_range(items: &Vec<(u32, u64)>, from: usize, to: usize) -> (r: Vec<(u32, u64)>)
    requires
        from <= to <= items@.len(),
    ensures
        sorted_by(r@, by_key()),
        r@.to_multiset() == items@.subrange(from as int, to as int).to_multiset(),
    decreases to - from,
{
    if to - from <= 1 {
        let mut out: Vec<(u32, u64)> = Vec::new();
        if from < to {
            out.push(items[from]);
        }
        assert(out@ =~= items@.subrange(from as int, to as int));
        return out;
    }
    let middle = from + (to - from) / 2;
    let left = sorted_range(items, from, middle);
    let right = sorted_range(items, middle, to);
    proof {
        let x = items@.subrange(from as int, middle as int);
        let y = items@.subrange(middle as int, to as int);
        assert(x + y =~= items@.subrange(from as int, to as int));
        lemma_multiset_commutative(x, y);
    }
    merge(left, right)
}

/// Sort some items by key, then by count.
pub fn sort(items: &Vec<(u32, u64)>) -> (r: Vec<(u32, u64)>)
    ensures
        r@ == ordered(items@),
{
    let r = sorted_range(items, 0, items.len());
    proof {
        assert(items@.subrange(0, items@.len() as int) =~= items@);
        lemma_is_ordered(items@, r@);
    }
    r
}

/// The counts of some items, in all.
pub open spec fn weight(items: Seq<(u32, u64)>) -> int
    decreases items.len(),
{
    if items.len() == 0 {
        0
    } else {
        weight(items.drop_last()) + items.last().1
    }
}

/// The counts in all, added from the other end.
proof fn lemma_weight_folds(items: Seq<(u32, u64)>, more: int)
    ensures
        items.fold_right(|t: (u32, u64), sum: int| t.1 + sum, more) == weight(items) + more,
    decreases items.len(),
{
    if items.len() > 0 {
        lemma_weight_folds(items.drop_last(), items.last().1 + more);
    }
}

/// Putting items in order keeps their counts in all.
pub proof fn lemma_ordered_weight(items: Seq<(u32, u64)>)
    ensures
        weight(ordered(items)) == weight(items),
{
    let f = |t: (u32, u64), sum: int| t.1 + sum;
    lemma_ordered(items);
    lemma_fold_right_permutation(ordered(items), items, f, 0);
    lemma_weight_folds(items, 0);
    lemma_weight_folds(ordered(items), 0);
}

/// Putting items in order keeps which there are.
pub proof fn lemma_ordered_holds(items: Seq<(u32, u64)>, item: (u32, u64))
    ensures
        ordered(items).contains(item) <==> items.contains(item),
{
    lemma_ordered(items);
    broadcast use group_to_multiset_ensures;

    assert(items.to_multiset().count(item) == ordered(items).to_multiset().count(item));
}

/// The counts of the first items are part of those in all.
pub proof fn lemma_weight_split(items: Seq<(u32, u64)>, at: int)
    requires
        0 <= at <= items.len(),
    ensures
        weight(items.take(at)) + weight(items.skip(at)) == weight(items),
        weight(items.take(at)) >= 0,
        weight(items.skip(at)) >= 0,
    decreases items.len(),
{
    if at == items.len() {
        assert(items.take(at) =~= items);
        assert(items.skip(at) =~= Seq::empty());
        if items.len() > 0 {
            lemma_weight_split(items.drop_last(), items.len() - 1);
            assert(items.drop_last().take(items.len() - 1) =~= items.drop_last());
        }
    } else {
        lemma_weight_split(items.drop_last(), at);
        assert(items.drop_last().take(at) =~= items.take(at));
        assert(items.skip(at).drop_last() =~= items.drop_last().skip(at));
        assert(items.skip(at).last() == items.last());
    }
}

} // verus!
