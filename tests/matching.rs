use rent_commodity_exchange::{MatchError, Problem, Term};
use rent_commodity_exchange::Order;

fn rect(price: u32, size: i32, start: usize, end: usize) -> Order {
    Order::Rect { price, size, time: start..end }
}

/// Best surplus over every assignment that the problem accepts; among equal
/// ones, the last in mask order.
fn brute_force_best(problem: &Problem) -> Option<(i128, Vec<bool>)> {
    let n = problem.num_variables();
    let mut best: Option<(i128, Vec<bool>)> = None;
    for mask in 0u32..(1u32 << n) {
        let chosen: Vec<bool> = (0..n).map(|i| mask & (1 << i) != 0).collect();
        if let Ok((s, f)) = problem.decode(Some(chosen)) {
            if best.as_ref().map_or(true, |(b, _)| s >= *b) {
                best = Some((s, f));
            }
        }
    }
    best
}

#[test]
fn solve_single_trade() {
    let orders = vec![rect(2, 1, 0, 1), rect(1, -1, 0, 1)];
    let problem = Problem::new(&orders, 1).unwrap();
    let (surplus, fulfillments) = problem.decode(Some(vec![true, true])).unwrap();

    assert_eq!(surplus, 1);
    assert_eq!(fulfillments, [true, true]);
}

#[test]
fn single_trade_is_the_best_assignment() {
    let orders = vec![rect(2, 1, 0, 1), rect(1, -1, 0, 1)];
    let problem = Problem::new(&orders, 1).unwrap();
    assert_eq!(brute_force_best(&problem), Some((1, vec![true, true])));
}

#[test]
fn price_is_returned() {
    assert_eq!(rect(7, -3, 0, 2).price(), 7);
}

#[test]
fn shape_fills_the_window() {
    assert_eq!(rect(1, 4, 1, 3).shape(5), vec![0, 4, 4, 0, 0]);
    assert_eq!(rect(1, -2, 0, 0).shape(3), vec![0, 0, 0]);
    assert_eq!(rect(1, 5, 0, 2).shape(2), vec![5, 5]);
    assert_eq!(rect(1, 5, 0, 0).shape(0), Vec::<i32>::new());
}

#[test]
fn quote_is_price_times_size() {
    assert_eq!(rect(3, 4, 0, 1).quote_fulfillment(), 12);
    assert_eq!(rect(3, -4, 0, 1).quote_fulfillment(), -12);
    assert_eq!(rect(u32::MAX, i32::MIN, 0, 1).quote_fulfillment(), u32::MAX as i64 * i32::MIN as i64);
}

#[test]
fn clone_keeps_the_order() {
    let o = rect(5, -1, 2, 4);
    let c = o.clone();
    assert_eq!(c.price(), 5);
    assert_eq!(c.shape(5), o.shape(5));
}

#[test]
fn window_past_horizon_is_invalid() {
    let orders = vec![rect(1, 1, 0, 1), rect(1, -1, 2, 4)];
    assert_eq!(Problem::new(&orders, 3).err(), Some(MatchError::InvalidOrder));
    assert!(Problem::new(&orders, 4).is_ok());
}

#[test]
fn reversed_window_is_invalid() {
    let orders = vec![rect(1, 1, 2, 1)];
    assert_eq!(Problem::new(&orders, 3).err(), Some(MatchError::InvalidOrder));
}

#[test]
fn empty_horizon_rejects_non_empty_windows() {
    let orders = vec![rect(1, -1, 0, 1)];
    assert_eq!(Problem::new(&orders, 0).err(), Some(MatchError::InvalidOrder));
}

#[test]
fn empty_horizon_accepts_empty_windows() {
    let orders = vec![rect(3, 2, 0, 0), rect(1, 0, 0, 0)];
    let problem = Problem::new(&orders, 0).unwrap();
    assert_eq!(problem.num_constraints(), 0);
    assert_eq!(problem.decode(Some(vec![true, true])), Ok((6, vec![true, true])));
    assert_eq!(brute_force_best(&problem), Some((6, vec![true, true])));
}

#[test]
fn problem_has_one_variable_per_order_and_one_constraint_per_step() {
    let orders = vec![rect(2, 3, 0, 2), rect(1, -1, 1, 3), rect(4, 0, 0, 3)];
    let problem = Problem::new(&orders, 4).unwrap();
    assert_eq!(problem.num_variables(), 3);
    assert_eq!(problem.num_constraints(), 4);
    assert_eq!(problem.objective(), &vec![6, -1, 0]);
    assert_eq!(problem.constraint(0), &vec![Term { var: 0, coef: 3 }]);
    assert_eq!(problem.constraint(1), &vec![Term { var: 0, coef: 3 }, Term { var: 1, coef: -1 }]);
    assert_eq!(problem.constraint(2), &vec![Term { var: 1, coef: -1 }]);
    assert_eq!(problem.constraint(3), &Vec::<Term>::new());
}

#[test]
fn no_answer_is_unsolved() {
    let orders = vec![rect(2, 1, 0, 1)];
    let problem = Problem::new(&orders, 1).unwrap();
    assert_eq!(problem.decode(None), Err(MatchError::Unsolved));
}

#[test]
fn answer_of_wrong_length_is_unsolved() {
    let orders = vec![rect(2, 1, 0, 1), rect(1, -1, 0, 1)];
    let problem = Problem::new(&orders, 1).unwrap();
    assert_eq!(problem.decode(Some(vec![true])), Err(MatchError::Unsolved));
    assert_eq!(problem.decode(Some(vec![true, true, false])), Err(MatchError::Unsolved));
}

#[test]
fn answer_over_capacity_is_unsolved() {
    let orders = vec![rect(2, 2, 0, 2), rect(1, -1, 0, 2)];
    let problem = Problem::new(&orders, 2).unwrap();
    assert_eq!(problem.decode(Some(vec![true, true])), Err(MatchError::Unsolved));
    assert_eq!(problem.decode(Some(vec![false, true])), Ok((-1, vec![false, true])));
}

#[test]
fn fulfillments_follow_order_indices() {
    let orders = vec![rect(1, -1, 0, 1), rect(5, 1, 0, 1), rect(9, 3, 0, 1)];
    let problem = Problem::new(&orders, 1).unwrap();
    let (surplus, fulfillments) = problem.decode(Some(vec![true, true, false])).unwrap();
    assert_eq!(fulfillments.len(), orders.len());
    assert_eq!(fulfillments, vec![true, true, false]);
    assert_eq!(surplus, 4);
}

#[test]
fn surplus_sums_fulfilled_quotes() {
    let orders = vec![rect(3, -2, 0, 2), rect(4, 1, 1, 2), rect(10, 1, 0, 1)];
    let problem = Problem::new(&orders, 2).unwrap();
    let (surplus, _) = problem.decode(Some(vec![true, true, true])).unwrap();
    assert_eq!(surplus, -6 + 4 + 10);
}

#[test]
fn best_assignment_beats_every_feasible_one() {
    let orders = vec![rect(3, -2, 0, 3), rect(4, 1, 1, 2), rect(10, 1, 0, 1), rect(6, 1, 2, 3)];
    let problem = Problem::new(&orders, 3).unwrap();
    let (best, chosen) = brute_force_best(&problem).unwrap();
    assert_eq!(best, -6 + 4 + 10 + 6);
    assert_eq!(chosen, vec![true, true, true, true]);
}

#[test]
fn lone_positive_order_is_rejected() {
    let orders = vec![rect(2, 3, 1, 3)];
    let problem = Problem::new(&orders, 4).unwrap();
    assert_eq!(problem.decode(Some(vec![true])), Err(MatchError::Unsolved));
    assert_eq!(problem.decode(Some(vec![false])), Ok((0, vec![false])));
    assert_eq!(brute_force_best(&problem), Some((0, vec![false])));
}

#[test]
fn lone_non_positive_order_is_feasible() {
    let orders = vec![rect(2, -3, 1, 3)];
    let problem = Problem::new(&orders, 4).unwrap();
    assert_eq!(problem.decode(Some(vec![true])), Ok((-6, vec![true])));
    let zero = vec![rect(2, 0, 1, 3)];
    let problem = Problem::new(&zero, 4).unwrap();
    assert_eq!(brute_force_best(&problem), Some((0, vec![true])));
}

#[test]
fn removing_an_accepted_order_does_not_raise_the_surplus() {
    let orders = vec![rect(3, -2, 0, 3), rect(4, 1, 1, 2), rect(10, 1, 0, 1), rect(6, 1, 2, 3)];
    let (full, chosen) = brute_force_best(&Problem::new(&orders, 3).unwrap()).unwrap();
    for k in 0..orders.len() {
        assert!(chosen[k]);
        let mut rest = orders.clone();
        rest.remove(k);
        let (reduced, _) = brute_force_best(&Problem::new(&rest, 3).unwrap()).unwrap();
        assert!(reduced <= full);
    }
}

#[test]
fn random_orders_fit_the_horizon() {
    let mut rng = rand::rng();
    for _ in 0..200 {
        let o = Order::random_rect(&mut rng, 6);
        assert!((100..120).contains(&o.price()));
        let shape = o.shape(6);
        assert_eq!(shape.len(), 6);
        assert_eq!(shape[5], 0);
        assert!(shape.iter().all(|&c| (-10..=10).contains(&c)));
        let Order::Rect { time, .. } = &o;
        assert!(time.start <= time.end && time.end < 6);
    }
    let orders: Vec<Order> = (0..200).map(|_| Order::random_rect(&mut rng, 6)).collect();
    assert!(Problem::new(&orders, 6).is_ok());
    let prices: Vec<u32> = orders.iter().map(|o| o.price()).collect();
    assert!(prices.iter().any(|&p| p != prices[0]));
    assert!(orders.iter().any(|o| o.shape(6).iter().any(|&c| c != 0)));
}

#[test]
fn draws_build_the_order() {
    let o = Order::rect_from_draws(7, 3, 2, 5);
    let Order::Rect { price, size, time } = &o;
    assert_eq!(*price, 107);
    assert_eq!(*size, -7);
    assert_eq!(time.clone(), 2..5);
    let o = Order::rect_from_draws(19, 20, 4, 4);
    let Order::Rect { price, size, time } = &o;
    assert_eq!(*price, 119);
    assert_eq!(*size, 10);
    assert_eq!(time.clone(), 4..4);
}

#[test]
fn reordering_orders_moves_their_flags() {
    let orders = vec![rect(10, 1, 0, 1), rect(1, -1, 0, 1), rect(3, 1, 0, 1)];
    let (s1, f1) = brute_force_best(&Problem::new(&orders, 1).unwrap()).unwrap();
    assert_eq!((s1, f1.clone()), (9, vec![true, true, false]));
    let pi = [2usize, 0, 1];
    let reordered: Vec<Order> = pi.iter().map(|&i| orders[i].clone()).collect();
    let (s2, f2) = brute_force_best(&Problem::new(&reordered, 1).unwrap()).unwrap();
    assert_eq!(s2, s1);
    for j in 0..pi.len() {
        assert_eq!(f2[j], f1[pi[j]]);
    }
}
