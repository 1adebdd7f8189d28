//! Putting rows in order: a stable sort over an order that the items define.

use vstd::prelude::*;

verus! {

/// Items with an order on their views.
pub trait Ranked: View + Sized {
    /// Whether `a` belongs in front of `b`.
    spec fn ahead(a: Self::V, b: Self::V) -> bool;

    fn goes_ahead(&self, other: &Self) -> (r: bool)
        ensures
            r == Self::ahead(self@, other@),
    ;
}

/// The views of a row.
pub open spec fn views<T: View>(row: Seq<T>) -> Seq<T::V> {
    row.map_values(|t: T| t@)
}

/// How many leading items belong in front of the given one.
pub open spec fn slot<T: Ranked>(row: Seq<T::V>, x: T::V) -> nat
    decreases row.len(),
{
    if row.len() > 0 && T::ahead(row[0], x) {
        1 + slot::<T>(row.drop_first(), x)
    } else {
        0
    }
}

/// The row put in order; equal items keep their order.
pub open spec fn arranged<T: Ranked>(row: Seq<T::V>) -> Seq<T::V>
    decreases row.len(),
{
    if row.len() == 0 {
        Seq::empty()
    } else {
        let rest = arranged::<T>(row.drop_first());
        rest.insert(slot::<T>(rest, row[0]) as int, row[0])
    }
}

pub proof fn lemma_slot<T: Ranked>(row: Seq<T::V>, x: T::V)
    ensures
        slot::<T>(row, x) <= row.len(),
        forall|i: int| 0 <= i < slot::<T>(row, x) ==> T::ahead(#[trigger] row[i], x),
        slot::<T>(row, x) < row.len() ==> !T::ahead(row[slot::<T>(row, x) as int], x),
    decreases row.len(),
{
    if row.len() > 0 && T::ahead(row[0], x) {
        let rest = row.drop_first();
        lemma_slot::<T>(rest, x);
        assert forall|i: int| 0 <= i < slot::<T>(row, x) implies T::ahead(#[trigger] row[i], x) by {
            if i > 0 {
                assert(rest[i - 1] == row[i]);
            }
        }
    }
}

fn find_slot<T: Ranked>(row: &Vec<T>, x: &T) -> (n: usize)
    ensures
        n == slot::<T>(views(row@), x@),
        n <= row@.len(),
{
    let mut n: usize = 0;
    assert(views(row@).skip(0) =~= views(row@));
    while n < row.len() && row[n].goes_ahead(x)
        invariant
            n <= row@.len(),
            slot::<T>(views(row@), x@) == n + slot::<T>(views(row@).skip(n as int), x@),
        decreases row@.len() - n,
    {
        assert(views(row@).skip(n as int).drop_first() =~= views(row@).skip(n + 1));
        assert(views(row@).skip(n as int)[0] == row@[n as int]@);
        n = n + 1;
    }
    proof {
        if n < row@.len() {
            assert(views(row@).skip(n as int)[0] == row@[n as int]@);
        }
    }
    n
}

/// Puts a row in order.
pub fn arrange<T: Ranked>(row: Vec<T>) -> (r: Vec<T>)
    ensures
        views(r@) == arranged::<T>(views(row@)),
{
    let ghost all = views(row@);
    let mut left = row;
    let mut out: Vec<T> = Vec::new();
    assert(views(out@) =~= arranged::<T>(all.skip(all.len() as int)));
    while left.len() > 0
        invariant
            left@.len() <= all.len(),
            views(left@) == all.take(left@.len() as int),
            views(out@) == arranged::<T>(all.skip(left@.len() as int)),
        decreases left@.len(),
    {
        let ghost n = left@.len() as int;
        let ghost before = views(left@);
        let ghost rest = views(out@);
        if let Some(x) = left.pop() {
            let at: usize = find_slot(&out, &x);
            assert(before[n - 1] == x@);
            assert(all.skip(n - 1)[0] == x@);
            assert(all.skip(n - 1).drop_first() =~= all.skip(n));
            assert(views(left@) =~= all.take(n - 1));
            out.insert(at, x);
            assert(views(out@) =~= rest.insert(at as int, x@));
        }
    }
    assert(all.skip(0) =~= all);
    out
}

/// Arranging neither loses nor adds anything.
pub proof fn lemma_arranged_same_items<T: Ranked>(row: Seq<T::V>)
    ensures
        arranged::<T>(row).len() == row.len(),
        arranged::<T>(row).to_multiset() == row.to_multiset(),
    decreases row.len(),
{
    broadcast use vstd::seq_lib::group_to_multiset_ensures;

    if row.len() > 0 {
        let rest = arranged::<T>(row.drop_first());
        let x = row[0];
        lemma_arranged_same_items::<T>(row.drop_first());
        lemma_slot::<T>(rest, x);
        let at = slot::<T>(rest, x) as int;
        vstd::seq_lib::to_multiset_insert(rest, at, x);
        assert(row =~= row.drop_first().insert(0, x));
        vstd::seq_lib::to_multiset_insert(row.drop_first(), 0, x);
    }
}

/// Where nothing that is said of two items is lost over a third, an arranged row
/// has no item in front of one that belongs before it.
pub proof fn lemma_arranged_in_order<T: Ranked>(row: Seq<T::V>)
    requires
        forall|i: int, j: int|
            0 <= i < row.len() && 0 <= j < row.len() && #[trigger] T::ahead(row[i], row[j])
                ==> !T::ahead(row[j], row[i]),
        forall|i: int, j: int, k: int|
            0 <= i < row.len() && 0 <= j < row.len() && 0 <= k < row.len()
                && !(#[trigger] T::ahead(row[j], row[i])) && !(#[trigger] T::ahead(row[k], row[j]))
                ==> !T::ahead(row[k], row[i]),
    ensures
        forall|i: int, j: int|
            0 <= i < j < row.len() ==> !T::ahead(
                #[trigger] arranged::<T>(row)[j],
                #[trigger] arranged::<T>(row)[i],
            ),
    decreases row.len(),
{
    if row.len() > 0 {
        let tail = row.drop_first();
        let rest = arranged::<T>(tail);
        let x = row[0];
        assert forall|i: int, j: int|
            0 <= i < tail.len() && 0 <= j < tail.len() && #[trigger] T::ahead(
                tail[i],
                tail[j],
            ) implies !T::ahead(tail[j], tail[i]) by {
            assert(tail[i] == row[i + 1] && tail[j] == row[j + 1]);
        }
        assert forall|i: int, j: int, k: int|
            0 <= i < tail.len() && 0 <= j < tail.len() && 0 <= k < tail.len() && !(
            #[trigger] T::ahead(tail[j], tail[i])) && !(#[trigger] T::ahead(
                tail[k],
                tail[j],
            )) implies !T::ahead(tail[k], tail[i]) by {
            assert(tail[i] == row[i + 1] && tail[j] == row[j + 1] && tail[k] == row[k + 1]);
        }
        lemma_arranged_in_order::<T>(tail);
        lemma_arranged_same_items::<T>(tail);
        lemma_arranged_same_items::<T>(row);
        lemma_slot::<T>(rest, x);
        let at = slot::<T>(rest, x) as int;
        let done = arranged::<T>(row);
        assert(done =~= rest.insert(at, x));
        assert forall|i: int, j: int| 0 <= i < j < row.len() implies !T::ahead(
            #[trigger] done[j],
            #[trigger] done[i],
        ) by {
            if j == at {
                // What stands in front of the slot goes ahead of the new item.
                assert(done[i] == rest[i]);
                let p = lemma_arranged_origin::<T>(tail, i);
                assert(T::ahead(row[p + 1], row[0]));
            } else if i == at {
                // The new item goes in front of the first that does not go ahead.
                assert(done[j] == rest[j - 1]);
                let p = lemma_arranged_origin::<T>(tail, at);
                let q = lemma_arranged_origin::<T>(tail, j - 1);
                assert(!T::ahead(row[p + 1], row[0]));
                if j - 1 > at {
                    assert(!T::ahead(rest[j - 1], rest[at]));
                    assert(!T::ahead(row[q + 1], row[p + 1]));
                }
                assert(!T::ahead(row[q + 1], row[0]));
            } else {
                let a = if i < at {
                    i
                } else {
                    i - 1
                };
                let b = if j < at {
                    j
                } else {
                    j - 1
                };
                assert(done[i] == rest[a] && done[j] == rest[b]);
            }
        }
    }
}

/// Where an arranged item stood before.
pub proof fn lemma_arranged_origin<T: Ranked>(row: Seq<T::V>, i: int) -> (p: int)
    requires
        0 <= i < arranged::<T>(row).len(),
    ensures
        0 <= p < row.len(),
        row[p] == arranged::<T>(row)[i],
{
    lemma_arranged_same_items::<T>(row);
    let done = arranged::<T>(row);
    broadcast use vstd::seq_lib::group_to_multiset_ensures;

    assert(done.contains(done[i]));
    assert(done.to_multiset().contains(done[i]));
    assert(row.to_multiset().contains(done[i]));
    assert(row.contains(done[i]));
    choose|p: int| 0 <= p < row.len() && row[p] == done[i]
}

} // verus!
