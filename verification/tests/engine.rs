use revgrad::graph::{EngineError, Graph, Value};
use revgrad::rat::Rat64;

/// The value of node `i`'s gradient equals `num / den`.
fn grad_is(g: &Graph, i: usize, num: i64, den: i64) -> bool {
    let r = g.grad(i);
    (r.num as i128) * (den as i128) == (num as i128) * (r.den as i128)
}

/// The value of node `i`'s datum equals `num / den`.
fn data_is(g: &Graph, i: usize, num: i64, den: i64) -> bool {
    let r = g.data(i);
    (r.num as i128) * (den as i128) == (num as i128) * (r.den as i128)
}

#[test]
fn leaf_starts_with_zero_gradient() {
    let mut g = Graph::new();
    let x = g.value(7, 2);
    assert!(data_is(&g, x, 7, 2));
    assert!(grad_is(&g, x, 0, 1));
    assert_eq!(g.len(), 1);
}

#[test]
fn value_cell_has_zero_gradient() {
    let v = Value::new(Rat64 { num: 5, den: 2 });
    assert_eq!(v.data.num, 5);
    assert_eq!(v.data.den, 2);
    assert_eq!(v.grad.num, 0);
    assert_eq!(v.grad.den, 1);
}

#[test]
fn square_diamond_accumulates_both_paths() {
    // x used as both operands of one product: d(x*x)/dx = 2x = 6, not 3.
    let mut g = Graph::new();
    let x = g.value(3, 1);
    let y = g.mul(x, x).unwrap();
    assert!(data_is(&g, y, 9, 1));
    g.backward(y).unwrap();
    assert!(grad_is(&g, x, 6, 1));
    assert!(grad_is(&g, y, 1, 1));
}

#[test]
fn two_consumer_diamond_sums_path_contributions() {
    // s = x + x*x: ds/dx = 1 + 2x = 5 at x = 2.
    let mut g = Graph::new();
    let x = g.value(2, 1);
    let sq = g.mul(x, x).unwrap();
    let s = g.add(x, sq).unwrap();
    g.backward(s).unwrap();
    assert!(grad_is(&g, x, 5, 1));
}

#[test]
fn chain_rule_composition() {
    // L = (a*b + c) * f with a=2, b=-3, c=10, f=-2.
    let mut g = Graph::new();
    let a = g.value(2, 1);
    let b = g.value(-3, 1);
    let c = g.value(10, 1);
    let e = g.mul(a, b).unwrap();
    let d = g.add(e, c).unwrap();
    let f = g.value(-2, 1);
    let l = g.mul(d, f).unwrap();
    assert!(data_is(&g, e, -6, 1));
    assert!(data_is(&g, d, 4, 1));
    assert!(data_is(&g, l, -8, 1));
    g.backward(l).unwrap();
    assert!(grad_is(&g, a, 6, 1));
    assert!(grad_is(&g, b, -4, 1));
    assert!(grad_is(&g, c, -2, 1));
    assert!(grad_is(&g, f, 4, 1));
    assert!(grad_is(&g, d, -2, 1));
    assert!(grad_is(&g, l, 1, 1));
}

#[test]
fn relu_blocks_gradient_at_zero() {
    let mut g = Graph::new();
    let x = g.value(0, 1);
    let r = g.relu(x);
    assert!(data_is(&g, r, 0, 1));
    g.backward(r).unwrap();
    assert!(grad_is(&g, x, 0, 1));
}

#[test]
fn relu_blocks_gradient_below_zero() {
    let mut g = Graph::new();
    let x = g.value(-4, 3);
    let r = g.relu(x);
    assert!(data_is(&g, r, 0, 1));
    g.backward(r).unwrap();
    assert!(grad_is(&g, x, 0, 1));
}

#[test]
fn relu_passes_gradient_above_zero() {
    let mut g = Graph::new();
    let x = g.value(5, 2);
    let r = g.relu(x);
    assert!(data_is(&g, r, 5, 2));
    g.backward(r).unwrap();
    assert!(grad_is(&g, x, 1, 1));
}

#[test]
fn tanh_gradient_exact_at_one_half() {
    // The Pade approximant at 1/2 is 109/234; the backward contribution is
    // 1 - (109/234)^2 = 42875/54756.
    let mut g = Graph::new();
    let x = g.value(1, 2);
    let t = g.tanh(x).unwrap();
    assert!(data_is(&g, t, 109, 234));
    g.backward(t).unwrap();
    assert!(grad_is(&g, x, 42875, 54756));
}

#[test]
fn tanh_gradient_bounded_by_upstream() {
    // With upstream 1, the tanh contribution lies in [0, 1] for any input.
    let inputs: Vec<(i64, i64)> = vec![
        (0, 1),
        (1, 2),
        (-1, 2),
        (1, 1),
        (-1, 1),
        (2, 1),
        (-2, 1),
        (5, 1),
        (-5, 1),
        (7, 3),
        (-100, 7),
    ];
    for (num, den) in inputs {
        let mut g = Graph::new();
        let x = g.value(num, den);
        let t = g.tanh(x).unwrap();
        let d = g.data(t);
        assert!(d.num.abs() <= d.den);
        g.backward(t).unwrap();
        let gx = g.grad(x);
        assert!(gx.num >= 0);
        assert!(gx.num <= gx.den);
    }
}

#[test]
fn tanh_saturates_beyond_three() {
    let mut g = Graph::new();
    let x = g.value(4, 1);
    let t = g.tanh(x).unwrap();
    assert!(data_is(&g, t, 1, 1));
    g.backward(t).unwrap();
    assert!(grad_is(&g, x, 0, 1));
}

#[test]
fn division_by_zero_rejected_and_no_node_produced() {
    let mut g = Graph::new();
    let a = g.value(1, 1);
    let z = g.value(0, 1);
    let before = g.len();
    let r = g.div(a, z);
    assert_eq!(r, Err(EngineError::DivisionByZero));
    assert_eq!(g.len(), before);
}

#[test]
fn division_gradients() {
    // q = a / b with a = 1, b = 2: dq/da = 1/2, dq/db = -1/4.
    let mut g = Graph::new();
    let a = g.value(1, 1);
    let b = g.value(2, 1);
    let q = g.div(a, b).unwrap();
    assert!(data_is(&g, q, 1, 2));
    g.backward(q).unwrap();
    assert!(grad_is(&g, a, 1, 2));
    assert!(grad_is(&g, b, -1, 4));
}

#[test]
fn subtraction_and_negation_gradients() {
    let mut g = Graph::new();
    let a = g.value(5, 1);
    let b = g.value(3, 1);
    let s = g.sub(a, b).unwrap();
    assert!(data_is(&g, s, 2, 1));
    g.backward(s).unwrap();
    assert!(grad_is(&g, a, 1, 1));
    assert!(grad_is(&g, b, -1, 1));

    let mut h = Graph::new();
    let x = h.value(4, 1);
    let n = h.neg(x).unwrap();
    assert!(data_is(&h, n, -4, 1));
    h.backward(n).unwrap();
    assert!(grad_is(&h, x, -1, 1));
}

#[test]
fn backward_twice_is_idempotent() {
    let mut g = Graph::new();
    let x = g.value(2, 1);
    let sq = g.mul(x, x).unwrap();
    let s = g.add(x, sq).unwrap();
    g.backward(s).unwrap();
    let first: Vec<(i64, i64)> = (0..g.len()).map(|i| {
        let r = g.grad(i);
        (r.num, r.den)
    }).collect();
    g.backward(s).unwrap();
    for i in 0..g.len() {
        let r = g.grad(i);
        assert_eq!((r.num, r.den), first[i]);
    }
}

#[test]
fn backward_resets_stale_gradients() {
    // A pass from a new root over the same subgraph must not keep the old
    // root's contributions: gradients are re-derived, not accumulated across
    // calls.
    let mut g = Graph::new();
    let x = g.value(3, 1);
    let y = g.mul(x, x).unwrap();
    g.backward(y).unwrap();
    assert!(grad_is(&g, x, 6, 1));
    g.backward(x).unwrap();
    assert!(grad_is(&g, x, 1, 1));
}

#[test]
fn unreachable_leaf_keeps_zero_gradient() {
    let mut g = Graph::new();
    let x = g.value(3, 1);
    let lone = g.value(11, 1);
    let y = g.mul(x, x).unwrap();
    g.backward(y).unwrap();
    assert!(grad_is(&g, lone, 0, 1));
    g.backward(y).unwrap();
    assert!(grad_is(&g, lone, 0, 1));
}

#[test]
fn forward_overflow_rejected_and_no_node_produced() {
    let mut g = Graph::new();
    let big = g.value(i64::MAX, 1);
    let small = g.value(i64::MIN, 1);
    let before = g.len();
    assert_eq!(g.mul(big, big), Err(EngineError::Overflow));
    assert_eq!(g.neg(small), Err(EngineError::Overflow));
    assert_eq!(g.len(), before);
}

#[test]
fn tanh_overflow_rejected() {
    let mut g = Graph::new();
    let x = g.value(1, 2097152);
    assert_eq!(g.tanh(x), Err(EngineError::Overflow));
}

#[test]
fn backward_overflow_leaves_graph_untouched() {
    // dq/db = -1/b^2 with b = i64::MAX: b^2 is not representable, so the
    // pass fails as a whole and commits nothing.
    let mut g = Graph::new();
    let a = g.value(1, 1);
    let b = g.value(i64::MAX, 1);
    let q = g.div(a, b).unwrap();
    assert_eq!(g.backward(q), Err(EngineError::Overflow));
    assert!(grad_is(&g, a, 0, 1));
    assert!(grad_is(&g, b, 0, 1));
    assert!(grad_is(&g, q, 0, 1));
}

#[test]
fn negative_divisor_gradients() {
    // q = a / b with a = 1, b = -2: q = -1/2, dq/da = -1/2, dq/db = -1/4.
    let mut g = Graph::new();
    let a = g.value(1, 1);
    let b = g.value(-2, 1);
    let q = g.div(a, b).unwrap();
    assert!(data_is(&g, q, -1, 2));
    g.backward(q).unwrap();
    assert!(grad_is(&g, a, -1, 2));
    assert!(grad_is(&g, b, -1, 4));
}

#[test]
fn parameters_of_a_leaf_root_is_just_the_leaf() {
    let mut g = Graph::new();
    let x = g.value(2, 1);
    let _other = g.value(3, 1);
    assert_eq!(g.parameters(x), vec![x]);
}

#[test]
fn parameters_lists_reachable_nodes_ascending() {
    let mut g = Graph::new();
    let x = g.value(2, 1);
    let lone = g.value(9, 1);
    let sq = g.mul(x, x).unwrap();
    let s = g.add(x, sq).unwrap();
    let ids = g.parameters(s);
    assert_eq!(ids, vec![x, sq, s]);
    assert!(!ids.contains(&lone));
}
