//! Putting things in the order of their names.
use vstd::prelude::*;

use crate::text::{
    before, lemma_precedes_irreflexive, lemma_precedes_total, lemma_precedes_transitive, pieces,
    precedes,
};

verus! {

/// Whether `a` goes before `b`: going up in the order of code points, or going down.
pub open spec fn goes_before(a: Seq<char>, b: Seq<char>, down: bool) -> bool {
    if down {
        precedes(b, a)
    } else {
        precedes(a, b)
    }
}

/// `order`, which holds places among `keys`, with the place `x` put behind everything that its
/// key does not go before.
pub open spec fn inserted(order: Seq<int>, keys: Seq<Seq<char>>, x: int, down: bool) -> Seq<int>
    decreases order.len(),
{
    if order.len() == 0 || !goes_before(keys[x], keys[order.last()], down) {
        order.push(x)
    } else {
        inserted(order.drop_last(), keys, x, down).push(order.last())
    }
}

/// The places of the first `n` of `keys`, in the order of the keys; places whose keys are the
/// same stay as they are.
pub open spec fn order_of(keys: Seq<Seq<char>>, n: nat, down: bool) -> Seq<int>
    decreases n,
{
    if n == 0 {
        Seq::empty()
    } else {
        inserted(order_of(keys, (n - 1) as nat, down), keys, n - 1, down)
    }
}

/// Places as mathematical numbers.
pub open spec fn places(v: Seq<usize>) -> Seq<int> {
    Seq::new(v.len(), |i: int| v[i] as int)
}

/// Where [`inserted`] puts a place.
proof fn lemma_inserted(order: Seq<int>, keys: Seq<Seq<char>>, x: int, down: bool, i: int)
    requires
        0 <= i <= order.len(),
        i == 0 || !goes_before(keys[x], keys[order[i - 1]], down),
        forall|j: int|
            i <= j < order.len() ==> goes_before(keys[x], keys[#[trigger] order[j]], down),
    ensures
        inserted(order, keys, x, down) == order.insert(i, x),
    decreases order.len(),
{
    if i == order.len() {
        if order.len() > 0 {
            assert(order[i - 1] == order.last());
        }
        assert(order.insert(i, x) == order.push(x));
    } else {
        assert(order[order.len() - 1] == order.last());
        let init = order.drop_last();
        assert forall|j: int| i <= j < init.len() implies goes_before(
            keys[x],
            keys[#[trigger] init[j]],
            down,
        ) by {
            assert(init[j] == order[j]);
        }
        lemma_inserted(init, keys, x, down, i);
        assert(init.insert(i, x).push(order.last()) == order.insert(i, x));
    }
}

/// What holds of an order of the first `n` of `keys`: each place stands in it once, the keys
/// are in order, and places whose keys are the same stay in order.
pub open spec fn in_order(order: Seq<int>, keys: Seq<Seq<char>>, n: nat, down: bool) -> bool {
    &&& order.len() == n
    &&& forall|i: int| 0 <= i < n ==> 0 <= #[trigger] order[i] < n
    &&& forall|i: int, j: int| 0 <= i < j < n ==> #[trigger] order[i] != #[trigger] order[j]
    &&& forall|i: int, j: int|
        0 <= i < j < n ==> !goes_before(keys[#[trigger] order[j]], keys[#[trigger] order[i]], down)
    &&& forall|i: int, j: int|
        0 <= i < j < n && keys[#[trigger] order[i]] == keys[#[trigger] order[j]] ==> order[i]
            < order[j]
}

/// What does not go before, and what does not go before that.
proof fn lemma_not_before_transitive(a: Seq<char>, b: Seq<char>, c: Seq<char>, down: bool)
    requires
        !goes_before(b, a, down),
        goes_before(b, c, down),
    ensures
        goes_before(a, c, down),
{
    if down {
        lemma_precedes_total(a, b);
        if a != b {
            lemma_precedes_transitive(c, b, a);
        }
    } else {
        lemma_precedes_total(a, b);
        if a != b {
            lemma_precedes_transitive(a, b, c);
        }
    }
}

/// There is a place for a new one behind what it does not go before.
proof fn lemma_place(order: Seq<int>, keys: Seq<Seq<char>>, x: int, down: bool) -> (i: int)
    requires
        forall|i: int, j: int|
            0 <= i < j < order.len() ==> !goes_before(
                keys[#[trigger] order[j]],
                keys[#[trigger] order[i]],
                down,
            ),
    ensures
        0 <= i <= order.len(),
        inserted(order, keys, x, down) == order.insert(i, x),
        forall|j: int| 0 <= j < i ==> !goes_before(keys[x], keys[#[trigger] order[j]], down),
        forall|j: int|
            i <= j < order.len() ==> goes_before(keys[x], keys[#[trigger] order[j]], down),
    decreases order.len(),
{
    if order.len() == 0 {
        assert(order.insert(0, x) == order.push(x));
        0
    } else if !goes_before(keys[x], keys[order.last()], down) {
        let n = order.len() as int;
        assert(order[n - 1] == order.last());
        assert forall|j: int| 0 <= j < n implies !goes_before(
            keys[x],
            keys[#[trigger] order[j]],
            down,
        ) by {
            if j < n - 1 && goes_before(keys[x], keys[order[j]], down) {
                assert(!goes_before(keys[order[n - 1]], keys[order[j]], down));
                lemma_not_before_transitive(keys[order[n - 1]], keys[x], keys[order[j]], down);
            }
        }
        assert(order.insert(n, x) == order.push(x));
        n
    } else {
        let init = order.drop_last();
        assert forall|i: int, j: int| 0 <= i < j < init.len() implies !goes_before(
            keys[#[trigger] init[j]],
            keys[#[trigger] init[i]],
            down,
        ) by {
            assert(init[i] == order[i]);
            assert(init[j] == order[j]);
        }
        let i = lemma_place(init, keys, x, down);
        assert forall|j: int| 0 <= j < i implies !goes_before(
            keys[x],
            keys[#[trigger] order[j]],
            down,
        ) by {
            assert(init[j] == order[j]);
        }
        assert forall|j: int| i <= j < order.len() implies goes_before(
            keys[x],
            keys[#[trigger] order[j]],
            down,
        ) by {
            if j < init.len() {
                assert(init[j] == order[j]);
            }
        }
        assert(init.insert(i, x).push(order.last()) == order.insert(i, x));
        i
    }
}

/// The order that [`order_of`] gives is one: nothing is lost, nothing comes twice, the keys are
/// in order, and what has the same key stays in order.
pub proof fn law_order(keys: Seq<Seq<char>>, n: nat, down: bool)
    requires
        n <= keys.len(),
    ensures
        in_order(order_of(keys, n, down), keys, n, down),
    decreases n,
{
    if n > 0 {
        let m = (n - 1) as nat;
        law_order(keys, m, down);
        let o = order_of(keys, m, down);
        let i = lemma_place(o, keys, n - 1, down);
        let p = o.insert(i, n - 1);
        assert forall|a: int| 0 <= a < n implies 0 <= #[trigger] p[a] < n by {
            if a < i {
                assert(p[a] == o[a]);
            } else if a > i {
                assert(p[a] == o[a - 1]);
            }
        }
        assert forall|a: int, b: int| 0 <= a < b < n implies #[trigger] p[a] != #[trigger] p[b] && !goes_before(
            keys[p[b]],
            keys[p[a]],
            down,
        ) && (keys[p[a]] == keys[p[b]] ==> p[a] < p[b]) by {
            lemma_precedes_irreflexive(keys[n - 1]);
            if a < i {
                assert(p[a] == o[a]);
            } else if a > i {
                assert(p[a] == o[a - 1]);
            }
            if b < i {
                assert(p[b] == o[b]);
            } else if b > i {
                assert(p[b] == o[b - 1]);
            }
            if a == i {
                assert(goes_before(keys[n - 1], keys[o[b - 1]], down));
                if goes_before(keys[p[b]], keys[p[a]], down) {
                    if down {
                        lemma_precedes_transitive(keys[p[b]], keys[p[a]], keys[p[b]]);
                        lemma_precedes_irreflexive(keys[p[b]]);
                    } else {
                        lemma_precedes_transitive(keys[p[b]], keys[p[a]], keys[p[b]]);
                        lemma_precedes_irreflexive(keys[p[b]]);
                    }
                }
            }
        }
    }
}

/// Every place stands somewhere in an order.
pub proof fn lemma_place_found(order: Seq<int>, n: nat, k: int) -> (i: int)
    requires
        order.len() == n,
        forall|i: int| 0 <= i < n ==> 0 <= #[trigger] order[i] < n,
        forall|i: int, j: int| 0 <= i < j < n ==> #[trigger] order[i] != #[trigger] order[j],
        0 <= k < n,
    ensures
        0 <= i < n,
        order[i] == k,
    decreases n,
{
    if exists|i: int| 0 <= i < n && #[trigger] order[i] == k {
        choose|i: int| 0 <= i < n && #[trigger] order[i] == k
    } else {
        // Without `k`, the other places would be too few: move the last number into its gap.
        let m = (n - 1) as nat;
        let moved = Seq::new(
            m,
            |i: int|
                if order[i] == n - 1 {
                    k
                } else {
                    order[i]
                },
        );
        assert(n > 1) by {
            if n == 1 {
                assert(order[0] == k);
            }
        }
        assert forall|i: int| 0 <= i < m implies 0 <= #[trigger] moved[i] < m by {
            assert(0 <= order[i] < n);
            assert(order[i] != k);
        }
        assert forall|i: int, j: int| 0 <= i < j < m implies #[trigger] moved[i]
            != #[trigger] moved[j] by {
            assert(order[i] != order[j]);
            assert(order[i] != k && order[j] != k);
        }
        assert(0 <= order[n - 1] < n);
        assert(order[n - 1] != k);
        if order[n - 1] == n - 1 {
            // The last one stands for itself; `k` is missing among the first ones.
            let init = order.drop_last();
            assert forall|i: int| 0 <= i < m implies 0 <= #[trigger] init[i] < m by {
                assert(init[i] == order[i]);
                assert(order[i] != order[n - 1]);
            }
            assert forall|i: int, j: int| 0 <= i < j < m implies #[trigger] init[i]
                != #[trigger] init[j] by {
                assert(init[i] == order[i] && init[j] == order[j]);
            }
            let i = lemma_place_found(init, m, k);
            assert(order[i] == k);
            i
        } else {
            let gap = order[n - 1];
            let i = lemma_place_found(moved, m, gap);
            assert(order[i] == gap || gap == k);
            assert(order[i] != order[n - 1]);
            i
        }
    }
}

/// The places of `keys`, in their order.
pub fn sorted_order(keys: &Vec<Vec<char>>, down: bool) -> (r: Vec<usize>)
    ensures
        places(r@) == order_of(pieces(keys@), keys@.len(), down),
        in_order(places(r@), pieces(keys@), keys@.len(), down),
{
    let mut out: Vec<usize> = Vec::new();
    let n: usize = keys.len();
    let ghost all = pieces(keys@);
    assert(places(out@) == Seq::<int>::empty());
    for k in 0..n
        invariant
            n == keys@.len(),
            all == pieces(keys@),
            places(out@) == order_of(all, k as nat, down),
            out@.len() == k,
    {
        let ghost order = places(out@);
        proof {
            law_order(all, k as nat, down);
            assert forall|j: int| 0 <= j < k implies (#[trigger] out@[j]) < k by {
                assert(order[j] == out@[j] as int);
            }
        }
        let mut i: usize = k;
        while i > 0 && first_goes_before(&keys[k], &keys[out[i - 1]], down)
            invariant
                i <= k,
                k < n,
                n == keys@.len(),
                out@.len() == k,
                all == pieces(keys@),
                order == places(out@),
                forall|j: int| 0 <= j < k ==> (#[trigger] out@[j]) < k,
                forall|j: int|
                    i <= j < k ==> goes_before(all[k as int], all[#[trigger] order[j]], down),
            decreases i,
        {
            assert(order[i - 1] == out@[i - 1] as int);
            i = i - 1;
        }
        proof {
            if i > 0 {
                assert(order[i - 1] == out@[i - 1] as int);
            }
            lemma_inserted(order, all, k as int, down, i as int);
        }
        out.insert(i, k);
        assert(places(out@) == order.insert(i as int, k as int));
    }
    proof {
        law_order(all, n as nat, down);
    }
    out
}

/// Whether `a` goes before `b`.
fn first_goes_before(a: &Vec<char>, b: &Vec<char>, down: bool) -> (r: bool)
    ensures
        r == goes_before(a@, b@, down),
{
    if down {
        before(b, a)
    } else {
        before(a, b)
    }
}

/// An order of texts names each of them once, going up or down by code points, and leaves those
/// that are the same as they come.
pub proof fn law_each_once_in_order(keys: Seq<Seq<char>>, down: bool)
    ensures
        order_of(keys, keys.len(), down).len() == keys.len(),
        forall|i: int|
            0 <= i < keys.len() ==> 0 <= #[trigger] order_of(keys, keys.len(), down)[i] < keys.len(),
        forall|i: int, j: int|
            0 <= i < j < keys.len() ==> #[trigger] order_of(keys, keys.len(), down)[i]
                != #[trigger] order_of(keys, keys.len(), down)[j],
        forall|i: int, j: int|
            0 <= i < j < keys.len() ==> {
                let a = keys[#[trigger] order_of(keys, keys.len(), down)[i]];
                let b = keys[#[trigger] order_of(keys, keys.len(), down)[j]];
                if down {
                    !precedes(a, b)
                } else {
                    !precedes(b, a)
                }
            },
        forall|i: int, j: int|
            0 <= i < j < keys.len() && keys[#[trigger] order_of(keys, keys.len(), down)[i]]
                == keys[#[trigger] order_of(keys, keys.len(), down)[j]] ==> order_of(
                keys,
                keys.len(),
                down,
            )[i] < order_of(keys, keys.len(), down)[j],
{
    law_order(keys, keys.len(), down);
    let o = order_of(keys, keys.len(), down);
    assert forall|i: int, j: int| 0 <= i < j < keys.len() implies {
        let a = keys[#[trigger] o[i]];
        let b = keys[#[trigger] o[j]];
        if down {
            !precedes(a, b)
        } else {
            !precedes(b, a)
        }
    } by {
        assert(!goes_before(keys[o[j]], keys[o[i]], down));
    }
}

} // verus!
