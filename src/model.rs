use crate::order::{coef, end_of, fits, quote, start_of, Order};
use vstd::prelude::*;

verus! {

/// Sum of `vals[i]` over the indices `i < j` that `chosen` marks.
pub open spec fn picked_sum(vals: Seq<int>, chosen: Seq<bool>, j: int) -> int
    decreases j,
{
    if j <= 0 {
        0
    } else {
        picked_sum(vals, chosen, j - 1) + if chosen[j - 1] {
            vals[j - 1]
        } else {
            0
        }
    }
}

/// Capacity coefficients of all orders at time step `t`.
pub open spec fn coefs_at(orders: Seq<Order>, t: int) -> Seq<int> {
    orders.map_values(|o: Order| coef(o, t))
}

/// Quoted values of all orders.
pub open spec fn quotes(orders: Seq<Order>) -> Seq<int> {
    orders.map_values(|o: Order| quote(o))
}

/// Net capacity used at time step `t` by the orders that `chosen` accepts.
pub open spec fn load(orders: Seq<Order>, chosen: Seq<bool>, t: int) -> int {
    picked_sum(coefs_at(orders, t), chosen, orders.len() as int)
}

/// Total quoted value of the orders that `chosen` accepts.
pub open spec fn surplus(orders: Seq<Order>, chosen: Seq<bool>) -> int {
    picked_sum(quotes(orders), chosen, orders.len() as int)
}

/// `chosen` decides every order and keeps the net capacity at or below zero
/// at every time step of `[0, t_max)`.
pub open spec fn feasible(orders: Seq<Order>, chosen: Seq<bool>, t_max: int) -> bool {
    &&& chosen.len() == orders.len()
    &&& forall|t: int| 0 <= t < t_max ==> load(orders, chosen, t) <= 0
}

/// `chosen` is feasible and no feasible assignment has a greater surplus.
pub open spec fn optimal(orders: Seq<Order>, chosen: Seq<bool>, t_max: int) -> bool {
    &&& feasible(orders, chosen, t_max)
    &&& forall|other: Seq<bool>|
        feasible(orders, other, t_max) ==> surplus(orders, other) <= surplus(orders, chosen)
}

/// Marking index `k` as not picked, in a sequence one longer, adds nothing.
proof fn lemma_picked_sum_insert_false(vals: Seq<int>, chosen: Seq<bool>, k: int, j: int)
    requires
        0 <= k < vals.len(),
        chosen.len() + 1 == vals.len(),
        0 <= j <= vals.len(),
    ensures
        j <= k ==> picked_sum(vals, chosen.insert(k, false), j) == picked_sum(
            vals.remove(k),
            chosen,
            j,
        ),
        j > k ==> picked_sum(vals, chosen.insert(k, false), j) == picked_sum(
            vals.remove(k),
            chosen,
            j - 1,
        ),
    decreases j,
{
    if j > 0 {
        lemma_picked_sum_insert_false(vals, chosen, k, j - 1);
    }
}

/// Picking every index of non-negative values gives the largest sum.
proof fn lemma_picked_sum_all_max(vals: Seq<int>, chosen: Seq<bool>, j: int)
    requires
        0 <= j <= vals.len(),
        j <= chosen.len(),
        forall|i: int| 0 <= i < vals.len() ==> vals[i] >= 0,
    ensures
        picked_sum(vals, chosen, j) <= picked_sum(vals, Seq::new(vals.len(), |i: int| true), j),
    decreases j,
{
    if j > 0 {
        lemma_picked_sum_all_max(vals, chosen, j - 1);
    }
}

/// Removing an order and solving again never raises the optimal surplus:
/// every feasible assignment without order `k` extends, by rejecting order
/// `k`, to a feasible assignment of the full list with the same surplus.
pub proof fn lemma_removal_monotone(
    orders: Seq<Order>,
    k: int,
    t_max: int,
    full: Seq<bool>,
    reduced: Seq<bool>,
)
    requires
        0 <= k < orders.len(),
        optimal(orders, full, t_max),
        optimal(orders.remove(k), reduced, t_max),
    ensures
        surplus(orders.remove(k), reduced) <= surplus(orders, full),
{
    let rest = orders.remove(k);
    let extended = reduced.insert(k, false);
    assert forall|t: int| 0 <= t < t_max implies load(orders, extended, t) <= 0 by {
        assert(coefs_at(rest, t) == coefs_at(orders, t).remove(k));
        lemma_picked_sum_insert_false(coefs_at(orders, t), reduced, k, orders.len() as int);
        assert(load(rest, reduced, t) <= 0);
    }
    assert(feasible(orders, extended, t_max));
    assert(quotes(rest) == quotes(orders).remove(k));
    lemma_picked_sum_insert_false(quotes(orders), reduced, k, orders.len() as int);
}

/// Over an empty horizon an order with a non-empty window is rejected.
pub proof fn lemma_empty_horizon_rejects(o: Order)
    requires
        start_of(o) < end_of(o),
    ensures
        !fits(o, 0),
{
}

/// Over an empty horizon, when no order has a negative quoted value,
/// fulfilling every order is optimal.
pub proof fn lemma_empty_horizon_accepts_all(orders: Seq<Order>)
    requires
        forall|i: int| 0 <= i < orders.len() ==> quote(#[trigger] orders[i]) >= 0,
    ensures
        optimal(orders, Seq::new(orders.len(), |i: int| true), 0),
{
    let all = Seq::new(orders.len(), |i: int| true);
    assert(Seq::new(quotes(orders).len(), |i: int| true) == all);
    assert forall|other: Seq<bool>| feasible(orders, other, 0) implies surplus(orders, other)
        <= surplus(orders, all) by {
        assert forall|i: int| 0 <= i < quotes(orders).len() implies quotes(orders)[i] >= 0 by {
            assert(quote(orders[i]) >= 0);
        }
        lemma_picked_sum_all_max(quotes(orders), other, orders.len() as int);
    }
}

proof fn lemma_lone_load(o: Order, chosen: Seq<bool>, t: int)
    requires
        chosen.len() == 1,
    ensures
        load(seq![o], chosen, t) == if chosen[0] {
            coef(o, t)
        } else {
            0
        },
        surplus(seq![o], chosen) == if chosen[0] {
            quote(o)
        } else {
            0
        },
{
    reveal_with_fuel(picked_sum, 2);
    assert(coefs_at(seq![o], t)[0] == coef(o, t));
    assert(quotes(seq![o])[0] == quote(o));
}

/// A lone order that needs capacity (positive size over a non-empty window)
/// cannot be fulfilled, and rejecting it, with surplus zero, is optimal.
pub proof fn lemma_lone_positive_rejected(o: Order, t_max: int)
    requires
        fits(o, t_max),
        start_of(o) < end_of(o),
        coef(o, start_of(o)) > 0,
    ensures
        !feasible(seq![o], seq![true], t_max),
        optimal(seq![o], seq![false], t_max),
        surplus(seq![o], seq![false]) == 0,
{
    let t = start_of(o);
    lemma_lone_load(o, seq![true], t);
    lemma_lone_load(o, seq![false], t);
    assert forall|other: Seq<bool>| feasible(seq![o], other, t_max) implies surplus(seq![o], other)
        <= surplus(seq![o], seq![false]) by {
        lemma_lone_load(o, other, t);
    }
    assert forall|u: int| 0 <= u < t_max implies load(seq![o], seq![false], u) <= 0 by {
        lemma_lone_load(o, seq![false], u);
    }
}

/// A lone order that supplies capacity or needs none (size at most zero)
/// can be fulfilled on its own.
pub proof fn lemma_lone_nonpositive_feasible(o: Order, t_max: int)
    requires
        forall|t: int| coef(o, t) <= 0,
    ensures
        feasible(seq![o], seq![true], t_max),
{
    assert forall|t: int| 0 <= t < t_max implies load(seq![o], seq![true], t) <= 0 by {
        lemma_lone_load(o, seq![true], t);
    }
}

/// Sum of the first `j` entries of `a`.
spec fn total(a: Seq<int>, j: int) -> int
    decreases j,
{
    if j <= 0 {
        0
    } else {
        total(a, j - 1) + a[j - 1]
    }
}

/// Each value where `chosen` picks it, zero elsewhere.
spec fn picks(vals: Seq<int>, chosen: Seq<bool>) -> Seq<int> {
    Seq::new(vals.len(), |i: int| if chosen[i] { vals[i] } else { 0 })
}

/// `pi` maps `[0, n)` into `[0, n)` without repeats.
spec fn injective_on(pi: Seq<int>, n: int) -> bool {
    &&& pi.len() == n
    &&& forall|j: int| 0 <= j < n ==> 0 <= #[trigger] pi[j] < n
    &&& forall|j1: int, j2: int| 0 <= j1 < n && 0 <= j2 < n && j1 != j2 ==> pi[j1] != pi[j2]
}

proof fn lemma_picked_total(vals: Seq<int>, chosen: Seq<bool>, j: int)
    requires
        0 <= j <= vals.len(),
    ensures
        picked_sum(vals, chosen, j) == total(picks(vals, chosen), j),
    decreases j,
{
    if j > 0 {
        lemma_picked_total(vals, chosen, j - 1);
    }
}

proof fn lemma_total_prefix(a: Seq<int>, b: Seq<int>, j: int)
    requires
        0 <= j <= a.len(),
        j <= b.len(),
        forall|i: int| 0 <= i < j ==> a[i] == b[i],
    ensures
        total(a, j) == total(b, j),
    decreases j,
{
    if j > 0 {
        lemma_total_prefix(a, b, j - 1);
    }
}

proof fn lemma_total_remove(a: Seq<int>, k: int, j: int)
    requires
        0 <= k < a.len(),
        0 <= j <= a.len(),
    ensures
        j <= k ==> total(a, j) == total(a.remove(k), j),
        j > k ==> total(a, j) == total(a.remove(k), j - 1) + a[k],
    decreases j,
{
    if j > 0 {
        lemma_total_remove(a, k, j - 1);
    }
}

/// Reordering the entries of a sequence keeps its sum.
proof fn lemma_total_permuted(a: Seq<int>, b: Seq<int>, pi: Seq<int>)
    requires
        a.len() == b.len(),
        injective_on(pi, a.len() as int),
        forall|j: int| 0 <= j < b.len() ==> b[j] == a[pi[j]],
    ensures
        total(a, a.len() as int) == total(b, b.len() as int),
    decreases a.len(),
{
    let n = a.len() as int;
    if n > 0 {
        let k = pi[n - 1];
        let a2 = a.remove(k);
        let b2 = b.drop_last();
        let pi2 = Seq::new((n - 1) as nat, |j: int| if pi[j] < k { pi[j] } else { pi[j] - 1 });
        assert forall|j: int| 0 <= j < n - 1 implies 0 <= #[trigger] pi2[j] < n - 1 && b2[j]
            == a2[pi2[j]] by {
            assert(pi[j] != pi[n - 1]);
        }
        assert forall|j1: int, j2: int|
            0 <= j1 < n - 1 && 0 <= j2 < n - 1 && j1 != j2 implies pi2[j1] != pi2[j2] by {
            assert(pi[j1] != pi[n - 1]);
            assert(pi[j2] != pi[n - 1]);
        }
        lemma_total_permuted(a2, b2, pi2);
        lemma_total_remove(a, k, n);
        lemma_total_prefix(b2, b, n - 1);
    }
}

/// Reordering the values and the choices alike keeps the picked sum.
proof fn lemma_picked_permuted(
    vals: Seq<int>,
    chosen: Seq<bool>,
    vals2: Seq<int>,
    chosen2: Seq<bool>,
    pi: Seq<int>,
)
    requires
        vals.len() == vals2.len() == chosen.len() == chosen2.len(),
        injective_on(pi, vals.len() as int),
        forall|j: int| 0 <= j < vals2.len() ==> vals2[j] == vals[pi[j]],
        forall|j: int| 0 <= j < chosen2.len() ==> chosen2[j] == chosen[pi[j]],
    ensures
        picked_sum(vals2, chosen2, vals2.len() as int) == picked_sum(
            vals,
            chosen,
            vals.len() as int,
        ),
{
    let n = vals.len() as int;
    lemma_picked_total(vals, chosen, n);
    lemma_picked_total(vals2, chosen2, n);
    assert forall|j: int| 0 <= j < n implies picks(vals2, chosen2)[j] == picks(vals, chosen)[pi[j]] by {
        assert(0 <= pi[j] < n);
    }
    lemma_total_permuted(picks(vals, chosen), picks(vals2, chosen2), pi);
}

/// Taking the orders in another order and the choices alike keeps
/// feasibility and surplus.
proof fn lemma_reordered(
    orders: Seq<Order>,
    orders2: Seq<Order>,
    pi: Seq<int>,
    t_max: int,
    chosen: Seq<bool>,
)
    requires
        orders.len() == orders2.len(),
        injective_on(pi, orders.len() as int),
        forall|j: int| 0 <= j < orders2.len() ==> orders2[j] == orders[pi[j]],
        feasible(orders, chosen, t_max),
    ensures
        feasible(orders2, Seq::new(orders.len(), |j: int| chosen[pi[j]]), t_max),
        surplus(orders2, Seq::new(orders.len(), |j: int| chosen[pi[j]])) == surplus(
            orders,
            chosen,
        ),
{
    let n = orders.len() as int;
    let chosen2 = Seq::new(orders.len(), |j: int| chosen[pi[j]]);
    assert forall|t: int| 0 <= t < t_max implies load(orders2, chosen2, t) <= 0 by {
        assert forall|j: int| 0 <= j < n implies coefs_at(orders2, t)[j] == coefs_at(orders, t)[pi[j]] by {
            assert(0 <= pi[j] < n);
        }
        assert(forall|j: int| 0 <= j < chosen2.len() ==> chosen2[j] == chosen[pi[j]]);
        lemma_picked_permuted(coefs_at(orders, t), chosen, coefs_at(orders2, t), chosen2, pi);
        assert(load(orders, chosen, t) <= 0);
    }
    assert forall|j: int| 0 <= j < n implies quotes(orders2)[j] == quotes(orders)[pi[j]] by {
        assert(0 <= pi[j] < n);
    }
    lemma_picked_permuted(quotes(orders), chosen, quotes(orders2), chosen2, pi);
}

/// Flags follow their orders: where the orders come in another order (order
/// `j` of `orders2` is order `pi[j]` of `orders`) and the optimum over
/// `orders` is unique, every optimum over `orders2` has the same surplus and
/// gives order `j` the flag that order `pi[j]` has over `orders`.
pub proof fn lemma_permutation_moves_flags(
    orders: Seq<Order>,
    orders2: Seq<Order>,
    pi: Seq<int>,
    t_max: int,
    chosen: Seq<bool>,
    chosen2: Seq<bool>,
)
    requires
        orders.len() == orders2.len() == pi.len(),
        forall|j: int| 0 <= j < pi.len() ==> 0 <= #[trigger] pi[j] < pi.len(),
        forall|j1: int, j2: int|
            0 <= j1 < pi.len() && 0 <= j2 < pi.len() && j1 != j2 ==> pi[j1] != pi[j2],
        forall|i: int| 0 <= i < pi.len() ==> #[trigger] pi.contains(i),
        forall|j: int| 0 <= j < orders2.len() ==> orders2[j] == orders[pi[j]],
        optimal(orders, chosen, t_max),
        forall|other: Seq<bool>| #[trigger] optimal(orders, other, t_max) ==> other == chosen,
        optimal(orders2, chosen2, t_max),
    ensures
        surplus(orders2, chosen2) == surplus(orders, chosen),
        forall|j: int| 0 <= j < orders2.len() ==> chosen2[j] == chosen[pi[j]],
{
    let n = orders.len() as int;
    lemma_reordered(orders, orders2, pi, t_max, chosen);
    let inv = Seq::new(
        orders.len(),
        |i: int| choose|j: int| 0 <= j < pi.len() && pi[j] == i,
    );
    assert forall|i: int| 0 <= i < n implies 0 <= #[trigger] inv[i] < n && pi[inv[i]] == i by {
        assert(pi.contains(i));
    }
    assert forall|i1: int, i2: int| 0 <= i1 < n && 0 <= i2 < n && i1 != i2 implies inv[i1]
        != inv[i2] by {
        assert(pi[inv[i1]] == i1);
        assert(pi[inv[i2]] == i2);
    }
    assert forall|i: int| 0 <= i < n implies orders[i] == orders2[inv[i]] by {
        assert(pi[inv[i]] == i);
    }
    lemma_reordered(orders2, orders, inv, t_max, chosen2);
    let back = Seq::new(orders.len(), |i: int| chosen2[inv[i]]);
    assert(optimal(orders, back, t_max));
    assert(back == chosen);
    assert forall|j: int| 0 <= j < orders2.len() implies chosen2[j] == chosen[pi[j]] by {
        let i = pi[j];
        assert(pi[inv[i]] == i);
        assert(inv[i] == j);
        assert(back[i] == chosen2[inv[i]]);
    }
}

} // verus!
