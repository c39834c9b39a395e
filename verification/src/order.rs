//! Sorting: items put in the order that their kind has, those that the order
//! does not tell apart left in the order that they came in.

use vstd::prelude::*;

verus! {

/// Items that have an order.  Two of them may be told apart by something that
/// the order does not look at.
pub trait Ranked: Sized {
    /// Whether this item comes before another.
    spec fn precedes(self, other: Self) -> bool;

    /// Of two items at most one comes before the other.
    proof fn asymmetric(a: Self, b: Self)
        requires
            a.precedes(b),
        ensures
            !b.precedes(a),
    ;

    /// An item that does not come after a second does not come after what the
    /// second does not come after.
    proof fn chained(a: Self, b: Self, c: Self)
        requires
            !b.precedes(a),
            !c.precedes(b),
        ensures
            !c.precedes(a),
    ;

    /// Whether this item comes before another.
    fn before(&self, other: &Self) -> (r: bool)
        ensures
            r == self.precedes(*other),
    ;
}

/// Whether `r` is `all` in order, `from` telling where each item came from and
/// `to` where it went.
pub open spec fn shuffles<T: Ranked>(all: Seq<T>, r: Seq<T>, from: Seq<int>, to: Seq<int>) -> bool {
    &&& from.len() == to.len() == r.len() == all.len()
    &&& forall|i: int| 0 <= i < all.len() ==> 0 <= #[trigger] to[i] < r.len() && from[to[i]] == i
    &&& forall|p: int|
        0 <= p < r.len() ==> 0 <= #[trigger] from[p] < all.len() && r[p] == all[from[p]]
    &&& forall|p: int, q: int|
        0 <= p < q < r.len() ==> {
            &&& #[trigger] from[p] != #[trigger] from[q]
            &&& !r[q].precedes(r[p])
            &&& !r[p].precedes(r[q]) ==> from[p] < from[q]
        }
}

/// Whether `r` is `all` in order.
pub open spec fn arranged<T: Ranked>(all: Seq<T>, r: Seq<T>) -> bool {
    exists|from: Seq<int>, to: Seq<int>| shuffles(all, r, from, to)
}

/// Put items in order.
pub fn arrange<T: Ranked>(items: Vec<T>) -> (r: Vec<T>)
    ensures
        arranged(items@, r@),
{
    let ghost all = items@;
    let mut r: Vec<T> = Vec::new();
    let ghost mut from: Seq<int> = Seq::empty();
    let ghost mut to: Seq<int> = Seq::empty();
    let n: usize = items.len();
    let mut i: usize = 0;
    for item in it: items
        invariant
            it.seq() == all,
            all.len() == n,
            i == it.index(),
            shuffles(all.take(i as int), r@, from, to),
    {
        let ghost had = r@;
        let ghost came = from;
        let ghost went = to;
        let mut p: usize = r.len();
        while p > 0 && item.before(&r[p - 1])
            invariant
                p <= r@.len(),
                r@ == had,
                forall|q: int| p <= q < r@.len() ==> item.precedes(#[trigger] r@[q]),
            decreases p,
        {
            p -= 1;
        }
        r.insert(p, item);
        proof {
            from = came.insert(p as int, i as int);
            to = Seq::new(
                i as nat + 1,
                |k: int|
                    if k == i {
                        p as int
                    } else if went[k] >= p {
                        went[k] + 1
                    } else {
                        went[k]
                    },
            );
            let now = all.take(i + 1);
            assert(item == all[i as int]);
            assert forall|k: int| 0 <= k < now.len() implies 0 <= #[trigger] to[k] < r@.len()
                && from[to[k]] == k by {
                if k < i {
                    assert(came[went[k]] == k);
                }
            }
            assert forall|q: int| 0 <= q < r@.len() implies 0 <= #[trigger] from[q] < now.len()
                && r@[q] == now[from[q]] by {
                if q < p {
                    assert(from[q] == came[q]);
                } else if q > p {
                    assert(from[q] == came[q - 1]);
                }
            }
            assert forall|a: int, b: int| 0 <= a < b < r@.len() implies {
                &&& #[trigger] from[a] != #[trigger] from[b]
                &&& !r@[b].precedes(r@[a])
                &&& !r@[a].precedes(r@[b]) ==> from[a] < from[b]
            } by {
                if a == p {
                    assert(from[b] == came[b - 1]);
                    assert(r@[b] == had[b - 1]);
                    assert(item.precedes(had[b - 1]));
                    T::asymmetric(item, had[b - 1]);
                } else if b == p {
                    assert(from[a] == came[a]);
                    assert(r@[a] == had[a]);
                    assert(!item.precedes(had[p - 1]));
                    if a < p - 1 {
                        assert(came[a] != came[p - 1]);
                        T::chained(had[a], had[p - 1], item);
                    }
                } else {
                    let x = if a < p { a } else { a - 1 };
                    let y = if b < p { b } else { b - 1 };
                    assert(from[a] == came[x]);
                    assert(from[b] == came[y]);
                    assert(r@[a] == had[x]);
                    assert(r@[b] == had[y]);
                }
            }
        }
        i += 1;
    }
    assert(all.take(n as int) =~= all);
    assert(shuffles(all, r@, from, to));
    r
}

/// Whether `r` is `all` in the order that `less` is, `from` telling where each
/// item came from and `to` where it went.
pub open spec fn sorts<A>(
    all: Seq<A>,
    r: Seq<A>,
    less: spec_fn(A, A) -> bool,
    from: Seq<int>,
    to: Seq<int>,
) -> bool {
    &&& from.len() == to.len() == r.len() == all.len()
    &&& forall|i: int| 0 <= i < all.len() ==> 0 <= #[trigger] to[i] < r.len() && from[to[i]] == i
    &&& forall|p: int|
        0 <= p < r.len() ==> 0 <= #[trigger] from[p] < all.len() && r[p] == all[from[p]]
    &&& forall|p: int, q: int|
        0 <= p < q < r.len() ==> {
            &&& #[trigger] from[p] != #[trigger] from[q]
            &&& !less(r[q], r[p])
            &&& !less(r[p], r[q]) ==> from[p] < from[q]
        }
}

/// Whether `r` is `all` in the order that `less` is, with what the order does
/// not tell apart left as it came.
pub open spec fn sorted_as<A>(all: Seq<A>, r: Seq<A>, less: spec_fn(A, A) -> bool) -> bool {
    exists|from: Seq<int>, to: Seq<int>| sorts(all, r, less, from, to)
}

/// What is in order is in order as plain values too.
pub proof fn lemma_arranged_views<T: Ranked, A>(
    all: Seq<T>,
    r: Seq<T>,
    view: spec_fn(T) -> A,
    less: spec_fn(A, A) -> bool,
)
    requires
        arranged(all, r),
        forall|a: T, b: T| #[trigger] a.precedes(b) == less(view(a), view(b)),
    ensures
        sorted_as(all.map_values(view), r.map_values(view), less),
{
    let (from, to) = choose|from: Seq<int>, to: Seq<int>| shuffles(all, r, from, to);
    let x = all.map_values(view);
    let y = r.map_values(view);
    assert forall|p: int, q: int| 0 <= p < q < y.len() implies {
        &&& #[trigger] from[p] != #[trigger] from[q]
        &&& !less(y[q], y[p])
        &&& !less(y[p], y[q]) ==> from[p] < from[q]
    } by {
        assert(r[q].precedes(r[p]) == less(view(r[q]), view(r[p])));
        assert(r[p].precedes(r[q]) == less(view(r[p]), view(r[q])));
    }
    assert(sorts(x, y, less, from, to));
}

} // verus!
