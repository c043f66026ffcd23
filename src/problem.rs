use crate::model::{coefs_at, feasible, load, picked_sum, quotes, surplus};
use crate::order::{coef, fits, quote, Order};
use vstd::prelude::*;

verus! {

/// Why a matching could not be produced.
#[derive(Debug, Clone, Copy, PartialEq, Eq, Structural)]
pub enum MatchError {
    /// An order's window does not fit the horizon.
    InvalidOrder,
    /// The solver found no feasible assignment.
    Unsolved,
}

/// One nonzero entry of a capacity constraint: decision variable `var`
/// weighted by `coef`.
#[derive(Debug, Clone, Copy, PartialEq, Eq, Structural)]
pub struct Term {
    pub var: usize,
    pub coef: i32,
}

/// The nonzero terms of the constraint for time step `t` over the first `k`
/// orders, by increasing order index.
pub open spec fn row(orders: Seq<Order>, t: int, k: int) -> Seq<Term>
    decreases k,
{
    if k <= 0 {
        seq![]
    } else {
        let r = row(orders, t, k - 1);
        if coef(orders[k - 1], t) != 0 {
            r.push(Term { var: (k - 1) as usize, coef: coef(orders[k - 1], t) as i32 })
        } else {
            r
        }
    }
}

/// Weighted sum of the terms whose variable `chosen` sets.
pub open spec fn row_load(terms: Seq<Term>, chosen: Seq<bool>) -> int
    decreases terms.len(),
{
    if terms.len() == 0 {
        0
    } else {
        row_load(terms.drop_last(), chosen) + if chosen[terms.last().var as int] {
            terms.last().coef as int
        } else {
            0
        }
    }
}

proof fn lemma_row_vars(orders: Seq<Order>, t: int, k: int)
    requires
        0 <= k <= orders.len() <= usize::MAX,
    ensures
        forall|j: int| 0 <= j < row(orders, t, k).len() ==> row(orders, t, k)[j].var < k,
    decreases k,
{
    if k > 0 {
        lemma_row_vars(orders, t, k - 1);
        let r = row(orders, t, k - 1);
        if coef(orders[k - 1], t) != 0 {
            let term = Term { var: (k - 1) as usize, coef: coef(orders[k - 1], t) as i32 };
            assert(row(orders, t, k) == r.push(term));
            assert forall|j: int| 0 <= j < r.push(term).len() implies r.push(term)[j].var < k by {
                if j < r.len() {
                    assert(r.push(term)[j] == r[j]);
                }
            }
        }
    }
}

proof fn lemma_row_load(orders: Seq<Order>, chosen: Seq<bool>, t: int, k: int)
    requires
        0 <= k <= orders.len() <= usize::MAX,
    ensures
        row_load(row(orders, t, k), chosen) == picked_sum(coefs_at(orders, t), chosen, k),
    decreases k,
{
    if k > 0 {
        lemma_row_load(orders, chosen, t, k - 1);
        let r = row(orders, t, k - 1);
        if coef(orders[k - 1], t) != 0 {
            let term = Term { var: (k - 1) as usize, coef: coef(orders[k - 1], t) as i32 };
            assert(term.var == k - 1);
            assert(term.coef == coef(orders[k - 1], t));
            assert(r.push(term).drop_last() == r);
            assert(coefs_at(orders, t)[k - 1] == coef(orders[k - 1], t));
        }
    }
}

/// A matching problem: one binary decision variable per order, whose
/// objective coefficient is the order's quoted value, and one constraint per
/// time step bounding the net capacity of the accepted orders by zero.
pub struct Problem {
    objective: Vec<i64>,
    constraints: Vec<Vec<Term>>,
    orders: Ghost<Seq<Order>>,
}

impl Problem {
    /// The orders the problem was built from.
    pub closed spec fn orders(&self) -> Seq<Order> {
        self.orders@
    }

    /// The horizon: the number of time steps.
    pub closed spec fn t_max(&self) -> nat {
        self.constraints@.len()
    }

    /// Variables and constraints agree with the orders and the horizon.
    pub closed spec fn wf(&self) -> bool {
        &&& self.objective@.len() == self.orders@.len()
        &&& forall|i: int|
            0 <= i < self.orders@.len() ==> self.objective@[i] == quote(#[trigger] self.orders@[i])
        &&& forall|i: int|
            0 <= i < self.orders@.len() ==> fits(#[trigger] self.orders@[i], self.t_max() as int)
        &&& forall|t: int|
            0 <= t < self.constraints@.len() ==> #[trigger] self.constraints@[t]@ == row(
                self.orders@,
                t,
                self.orders@.len() as int,
            )
    }

    /// Builds the problem for `orders` over the horizon `[0, t_max)`.
    /// Fails with `InvalidOrder` exactly when some order's window is not an
    /// interval ending at or before `t_max`.
    pub fn new(orders: &[Order], t_max: usize) -> (r: Result<Problem, MatchError>)
        ensures
            match r {
                Ok(p) => {
                    &&& p.wf()
                    &&& p.orders() == orders@
                    &&& p.t_max() == t_max
                },
                Err(e) => {
                    &&& e == MatchError::InvalidOrder
                    &&& exists|i: int| 0 <= i < orders@.len() && !fits(#[trigger] orders@[i], t_max as int)
                },
            },
            r is Err <==> exists|i: int| 0 <= i < orders@.len() && !fits(#[trigger] orders@[i], t_max as int),
    {
        let n = orders.len();
        let mut i: usize = 0;
        while i < n
            invariant
                i <= n,
                n == orders@.len(),
                forall|j: int| 0 <= j < i ==> fits(#[trigger] orders@[j], t_max as int),
            decreases n - i,
        {
            match &orders[i] {
                Order::Rect { time, .. } => {
                    if !(time.start <= time.end && time.end <= t_max) {
                        return Err(MatchError::InvalidOrder);
                    }
                },
            }
            i = i + 1;
        }
        let mut objective: Vec<i64> = Vec::new();
        let mut shapes: Vec<Vec<i32>> = Vec::new();
        i = 0;
        while i < n
            invariant
                i <= n,
                n == orders@.len(),
                forall|j: int| 0 <= j < n ==> fits(#[trigger] orders@[j], t_max as int),
                objective@.len() == i,
                shapes@.len() == i,
                forall|j: int| 0 <= j < i ==> objective@[j] == quote(#[trigger] orders@[j]),
                forall|j: int|
                    0 <= j < i ==> (#[trigger] shapes@[j])@.len() == t_max && forall|t: int|
                        0 <= t < t_max ==> shapes@[j]@[t] == coef(orders@[j], t),
            decreases n - i,
        {
            objective.push(orders[i].quote_fulfillment());
            shapes.push(orders[i].shape(t_max));
            i = i + 1;
        }
        let mut constraints: Vec<Vec<Term>> = Vec::new();
        let mut t: usize = 0;
        while t < t_max
            invariant
                t <= t_max,
                n == orders@.len(),
                shapes@.len() == n,
                forall|j: int|
                    0 <= j < n ==> (#[trigger] shapes@[j])@.len() == t_max && forall|u: int|
                        0 <= u < t_max ==> shapes@[j]@[u] == coef(orders@[j], u),
                constraints@.len() == t,
                forall|u: int|
                    0 <= u < t ==> #[trigger] constraints@[u]@ == row(orders@, u, n as int),
            decreases t_max - t,
        {
            let mut terms: Vec<Term> = Vec::new();
            let mut j: usize = 0;
            while j < n
                invariant
                    j <= n,
                    t < t_max,
                    n == orders@.len(),
                    shapes@.len() == n,
                    forall|k: int|
                        0 <= k < n ==> (#[trigger] shapes@[k])@.len() == t_max && forall|u: int|
                            0 <= u < t_max ==> shapes@[k]@[u] == coef(orders@[k], u),
                    terms@ == row(orders@, t as int, j as int),
                decreases n - j,
            {
                let c = shapes[j][t];
                if c != 0 {
                    terms.push(Term { var: j, coef: c });
                }
                j = j + 1;
            }
            constraints.push(terms);
            t = t + 1;
        }
        Ok(Problem { objective, constraints, orders: Ghost(orders@) })
    }

    /// Number of decision variables: one per order.
    pub fn num_variables(&self) -> (r: usize)
        requires
            self.wf(),
        ensures
            r == self.orders().len(),
    {
        self.objective.len()
    }

    /// Number of constraints: one per time step of the horizon.
    pub fn num_constraints(&self) -> (r: usize)
        ensures
            r == self.t_max(),
    {
        self.constraints.len()
    }

    /// Objective coefficients, by order: each order's quoted value.
    pub fn objective(&self) -> (r: &Vec<i64>)
        requires
            self.wf(),
        ensures
            r@.len() == self.orders().len(),
            forall|i: int|
                #![trigger r@[i]]
                #![trigger self.orders()[i]]
                0 <= i < r@.len() ==> r@[i] == quote(self.orders()[i]),
    {
        &self.objective
    }

    /// Nonzero terms of the constraint for time step `t`.
    pub fn constraint(&self, t: usize) -> (r: &Vec<Term>)
        requires
            self.wf(),
            t < self.t_max(),
        ensures
            r@ == row(self.orders(), t as int, self.orders().len() as int),
    {
        &self.constraints[t]
    }

    /// Turns the solver's answer into the matching: the surplus and, by
    /// order index, whether each order is fulfilled. `found` is the
    /// assignment the solver reported, or `None` where it found none.
    /// Fails with `Unsolved` exactly when there is no assignment, or it does
    /// not decide every order, or it breaks a capacity constraint.
    pub fn decode(&self, found: Option<Vec<bool>>) -> (r: Result<(i128, Vec<bool>), MatchError>)
        requires
            self.wf(),
        ensures
            match r {
                Ok((s, f)) => {
                    &&& found == Some(f)
                    &&& f@.len() == self.orders().len()
                    &&& feasible(self.orders(), f@, self.t_max() as int)
                    &&& s == surplus(self.orders(), f@)
                },
                Err(e) => e == MatchError::Unsolved,
            },
            r is Ok <==> (found is Some && feasible(
                self.orders(),
                found->0@,
                self.t_max() as int,
            )),
    {
        let chosen = match found {
            None => {
                return Err(MatchError::Unsolved);
            },
            Some(v) => v,
        };
        let n = self.objective.len();
        if chosen.len() != n {
            return Err(MatchError::Unsolved);
        }
        let ghost orders = self.orders@;
        let mut t: usize = 0;
        while t < self.constraints.len()
            invariant
                self.wf(),
                orders == self.orders@,
                found == Some(chosen),
                chosen@.len() == n,
                n == orders.len(),
                t <= self.constraints@.len(),
                forall|u: int| 0 <= u < t ==> load(orders, chosen@, u) <= 0,
            decreases self.constraints@.len() - t,
        {
            let terms = &self.constraints[t];
            proof {
                lemma_row_vars(orders, t as int, n as int);
            }
            let mut acc: i128 = 0;
            let mut j: usize = 0;
            while j < terms.len()
                invariant
                    j <= terms@.len(),
                    chosen@.len() == n,
                    forall|k: int| 0 <= k < terms@.len() ==> (#[trigger] terms@[k]).var < n,
                    acc == row_load(terms@.subrange(0, j as int), chosen@),
                    -(j as int) * 0x8000_0000 <= acc <= (j as int) * 0x8000_0000,
                decreases terms@.len() - j,
            {
                let term = terms[j];
                if chosen[term.var] {
                    acc = acc + term.coef as i128;
                }
                proof {
                    assert(terms@.subrange(0, j + 1).drop_last() == terms@.subrange(0, j as int));
                }
                j = j + 1;
            }
            proof {
                assert(terms@.subrange(0, terms@.len() as int) == terms@);
                assert(terms@ == self.constraints@[t as int]@);
                assert(terms@ == row(orders, t as int, n as int));
                lemma_row_load(orders, chosen@, t as int, n as int);
                assert(load(orders, chosen@, t as int) == acc);
            }
            if acc > 0 {
                return Err(MatchError::Unsolved);
            }
            t = t + 1;
        }
        let mut total: i128 = 0;
        let mut i: usize = 0;
        while i < n
            invariant
                self.wf(),
                orders == self.orders@,
                i <= n,
                n == orders.len(),
                found == Some(chosen),
                feasible(orders, chosen@, self.t_max() as int),
                chosen@.len() == n,
                total == picked_sum(quotes(orders), chosen@, i as int),
                -(i as int) * 0x8000_0000_0000_0000 <= total <= (i as int) * 0x8000_0000_0000_0000,
            decreases n - i,
        {
            if chosen[i] {
                total = total + self.objective[i] as i128;
            }
            proof {
                assert(quotes(orders)[i as int] == quote(orders[i as int]));
            }
            i = i + 1;
        }
        Ok((total, chosen))
    }
}

} // verus!
