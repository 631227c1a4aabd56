use autodiff::{backprop, reset, tanh, Formula, Tape};

fn arith(f: Formula<f32>) -> f32 {
    match f {
        Formula::Zero => 0.0,
        Formula::One => 1.0,
        Formula::Two => 2.0,
        Formula::Sum(a, b) => a + b,
        Formula::Difference(a, b) => a - b,
        Formula::Product(a, b) => a * b,
        Formula::Tanh(a) => a.tanh(),
        Formula::TanhSlope(a) => 1.0 - a.tanh().powi(2),
    }
}

fn tape() -> Tape<f32, fn(Formula<f32>) -> f32> {
    Tape::new(arith as fn(Formula<f32>) -> f32)
}

#[test]
fn mul() {
    let mut t = tape();
    let a = t.input(2.0);
    let b = t.input(3.0);
    let c = t.mul(a, b);
    assert_eq!(t.value(c), 6.0);
    let d = t.mul(c, a);
    assert_eq!(t.value(d), 12.0);
    t.add_grad(d, 1.0);
    t.back(d);
    t.back(c);
    assert_eq!(t.grad(a), 12.0);
}

#[test]
fn internal_loop() {
    let mut t = tape();
    let a = t.input(2.0);
    let b = t.input(1.0);
    let x = t.mul(a, b);
    let y = t.add(x, a);
    let w = t.add(x, b);
    let z = t.mul(y, w);
    t.add_grad(z, 1.0);
    t.back(z);
    t.back(w);
    t.back(y);
    t.back(x);
    assert_eq!(t.grad(a), 10.0);
}

#[test]
fn backprop_test() {
    let mut t = tape();
    let a = t.input(2.0);
    let b = t.input(1.0);
    let x1 = t.mul(a, b);
    let y = t.add(x1, a);
    let x2 = t.mul(a, b);
    let w = t.add(x2, b);
    let z = t.mul(y, w);
    backprop(&mut t, z);
    assert_eq!(t.grad(a), 10.0);
}

#[test]
fn forward_test() {
    let mut t = tape();
    let a = t.input(2.0);
    let b = t.input(1.0);
    let x1 = t.mul(a, b);
    let y = t.add(x1, a);
    let x2 = t.mul(a, b);
    let w = t.add(x2, b);
    let z = t.mul(y, w);
    assert_eq!(t.value(z), 12.0);
    t.set_value(a, 1.0);
    t.forward(z);
    assert_eq!(t.value(z), 4.0);
}

#[test]
fn tanh_test() {
    let mut t = tape();
    let a = t.input(2.0);
    let v = tanh(&mut t, a);
    assert_eq!(t.value(v), 0.9640276);
    backprop(&mut t, v);
    assert_eq!(t.grad(a), 0.070650816);
}

#[test]
fn reset_clears_what_root_reaches() {
    let mut t = tape();
    let a = t.input(2.0);
    let b = t.input(1.0);
    let other = t.input(7.0);
    let x = t.mul(a, b);
    let z = t.add(x, a);
    backprop(&mut t, z);
    t.add_grad(other, 5.0);
    reset(&mut t, z);
    for n in [a, b, x, z] {
        assert_eq!(t.grad(n), 0.0);
    }
    assert_eq!(t.grad(other), 5.0);
    assert_eq!(t.value(z), 4.0);
}

#[test]
fn weighted_sum_of_two_inputs() {
    let mut t = tape();
    let x = t.input(1.0);
    let y = t.input(-2.0);
    let s = autodiff::weighted_sum(&mut t, &vec![x, y], &vec![0.5, 0.25], 3.0);
    assert_eq!(s.weights, vec![2, 3]);
    assert_eq!(s.bias, 4);
    assert_eq!(s.sum, 8);
    assert_eq!(t.value(s.sum), 3.0);
    assert_eq!(t.value(s.weights[1]), 0.25);
    backprop(&mut t, s.sum);
    assert_eq!(t.grad(s.weights[0]), 1.0);
    assert_eq!(t.grad(s.weights[1]), -2.0);
    assert_eq!(t.grad(s.bias), 1.0);
    assert_eq!(t.grad(x), 0.5);
}

#[test]
fn product_with_itself() {
    let mut t = tape();
    let a = t.input(5.0);
    let x = t.mul(a, a);
    let y = t.mul(x, a);
    assert_eq!(t.value(y), 125.0);
    t.add_grad(y, 1.0);
    t.back(y);
    t.back(x);
    assert_eq!(t.grad(a), 75.0);
    assert_eq!(t.grad(x), 5.0);
}

#[test]
fn square_by_backprop() {
    let mut t = tape();
    let a = t.input(3.0);
    let x = t.mul(a, a);
    backprop(&mut t, x);
    assert_eq!(t.grad(a), 6.0);
    assert_eq!(t.grad(x), 1.0);
}

#[test]
fn diamond_with_shared_product() {
    let mut t = tape();
    let a = t.input(2.0);
    let b = t.input(1.0);
    let x = t.mul(a, b);
    let y = t.add(x, a);
    let w = t.add(x, b);
    let z = t.mul(y, w);
    assert_eq!(t.value(z), 12.0);
    backprop(&mut t, z);
    assert_eq!(t.grad(z), 1.0);
    assert_eq!(t.grad(y), 3.0);
    assert_eq!(t.grad(w), 4.0);
    assert_eq!(t.grad(x), 7.0);
    assert_eq!(t.grad(a), 10.0);
    assert_eq!(t.grad(b), 18.0);
}

#[test]
fn forward_without_new_values_changes_nothing() {
    let mut t = tape();
    let a = t.input(2.0);
    let b = t.input(1.0);
    let x = t.mul(a, b);
    let y = t.add(x, a);
    let w = t.add(x, b);
    let z = t.mul(y, w);
    let before: Vec<f32> = (0..t.len()).map(|n| t.value(n)).collect();
    t.forward(z);
    t.forward(z);
    let after: Vec<f32> = (0..t.len()).map(|n| t.value(n)).collect();
    assert_eq!(before, after);
    assert_eq!(t.value(z), 12.0);
}

#[test]
fn forward_follows_new_leaf_values() {
    let mut t = tape();
    let a = t.input(2.0);
    let b = t.input(1.0);
    let x = t.mul(a, b);
    let y = t.add(x, a);
    let w = t.add(x, b);
    let z = t.mul(y, w);
    t.set_value(a, 3.0);
    t.set_value(b, -1.0);
    assert_eq!(t.value(z), 12.0);
    t.forward(z);
    assert_eq!(t.value(x), -3.0);
    assert_eq!(t.value(y), 0.0);
    assert_eq!(t.value(w), -4.0);
    assert_eq!(t.value(z), 0.0);

    let mut fresh = tape();
    let a2 = fresh.input(3.0);
    let b2 = fresh.input(-1.0);
    let x2 = fresh.mul(a2, b2);
    let y2 = fresh.add(x2, a2);
    let w2 = fresh.add(x2, b2);
    let z2 = fresh.mul(y2, w2);
    assert_eq!(t.value(z), fresh.value(z2));
}

#[test]
fn forward_leaves_other_nodes_alone() {
    let mut t = tape();
    let a = t.input(2.0);
    let x = t.mul(a, a);
    let y = t.add(a, a);
    t.set_value(a, 10.0);
    t.forward(x);
    assert_eq!(t.value(x), 100.0);
    assert_eq!(t.value(y), 4.0);
    assert_eq!(t.grad(a), 0.0);
}

#[test]
fn backprop_after_reset_as_on_a_new_tape() {
    let mut t = tape();
    let a = t.input(2.0);
    let b = t.input(1.0);
    let x = t.mul(a, b);
    let y = t.add(x, a);
    let w = t.add(x, b);
    let z = t.mul(y, w);
    backprop(&mut t, z);
    let first: Vec<f32> = (0..t.len()).map(|n| t.grad(n)).collect();
    reset(&mut t, z);
    for n in 0..t.len() {
        assert_eq!(t.grad(n), 0.0);
    }
    backprop(&mut t, z);
    let second: Vec<f32> = (0..t.len()).map(|n| t.grad(n)).collect();
    assert_eq!(first, second);
    assert_eq!(second, vec![10.0, 18.0, 7.0, 3.0, 4.0, 1.0]);
}

#[test]
fn backprop_without_reset_adds_to_what_is_there() {
    let mut t = tape();
    let a = t.input(2.0);
    let x = t.mul(a, a);
    backprop(&mut t, x);
    backprop(&mut t, x);
    assert_eq!(t.grad(x), 2.0);
    assert_eq!(t.grad(a), 12.0);
}

#[test]
fn leaf_of_two_sums_gathers_both() {
    let mut t = tape();
    let x = t.input(1.0);
    let c1 = t.input(2.0);
    let c2 = t.input(3.0);
    let y1 = t.add(x, c1);
    let y2 = t.add(x, c2);
    t.add_grad(y1, 5.0);
    t.add_grad(y2, 7.0);
    t.back(y1);
    assert_eq!(t.grad(x), 5.0);
    t.back(y2);
    assert_eq!(t.grad(x), 12.0);
    assert_eq!(t.grad(c1), 5.0);
    assert_eq!(t.grad(c2), 7.0);
    assert_eq!(t.grad(y1), 5.0);
}

#[test]
fn sum_of_a_node_with_itself() {
    let mut t = tape();
    let a = t.input(4.0);
    let s = t.add(a, a);
    assert_eq!(t.value(s), 8.0);
    backprop(&mut t, s);
    assert_eq!(t.grad(a), 2.0);
}

#[test]
fn difference_hands_its_gradient_to_both_operands_unchanged() {
    let mut t = tape();
    let a = t.input(5.0);
    let b = t.input(3.0);
    let d = t.sub(a, b);
    assert_eq!(t.value(d), 2.0);
    backprop(&mut t, d);
    assert_eq!(t.grad(a), 1.0);
    assert_eq!(t.grad(b), 1.0);
    t.set_value(b, 7.0);
    t.forward(d);
    assert_eq!(t.value(d), -2.0);
}

#[test]
fn leaf_hands_nothing_on() {
    let mut t = tape();
    let a = t.input(1.5);
    let b = t.input(2.5);
    t.add_grad(a, 3.0);
    t.back(a);
    t.forward(a);
    assert_eq!(t.grad(a), 3.0);
    assert_eq!(t.grad(b), 0.0);
    assert_eq!(t.value(a), 1.5);
    assert_eq!(t.dependencies(a), Vec::<usize>::new());
}

#[test]
fn new_nodes_start_without_gradient() {
    let mut t = tape();
    let a = t.input(1.0);
    let b = t.input(2.0);
    let s = t.add(a, b);
    let p = t.mul(a, b);
    let d = t.sub(a, b);
    let h = tanh(&mut t, a);
    for n in [a, b, s, p, d, h] {
        assert_eq!(t.grad(n), 0.0);
    }
    assert_eq!(t.len(), 6);
    assert_eq!(t.dependencies(s), vec![a, b]);
    assert_eq!(t.dependencies(h), vec![a]);
    assert!(t.graph().is_input(a));
    assert!(!t.graph().is_input(s));
}

#[test]
fn gradients_gather_and_clear() {
    let mut t = tape();
    let a = t.input(1.0);
    t.add_grad(a, 2.0);
    t.add_grad(a, 0.5);
    assert_eq!(t.grad(a), 2.5);
    t.reset_grad(a);
    assert_eq!(t.grad(a), 0.0);
}

#[test]
fn tanh_slope_through_a_product() {
    let mut t = tape();
    let a = t.input(0.0);
    let c = t.input(3.0);
    let h = tanh(&mut t, a);
    let y = t.mul(h, c);
    assert_eq!(t.value(y), 0.0);
    backprop(&mut t, y);
    assert_eq!(t.grad(h), 3.0);
    assert_eq!(t.grad(a), 3.0);
    assert_eq!(t.grad(c), 0.0);
}

#[test]
fn step_is_taken_when_a_node_is_discovered() {
    let mut t = tape();
    let a = t.input(0.0);
    let c = t.input(3.0);
    let x = tanh(&mut t, a);
    let y = t.mul(x, c);
    let z = t.add(x, y);
    backprop(&mut t, z);
    assert_eq!(t.grad(y), 1.0);
    assert_eq!(t.grad(x), 4.0);
    assert_eq!(t.grad(c), 0.0);
    assert_eq!(t.grad(a), 1.0);
}

#[test]
fn arithmetic_is_the_users() {
    fn whole(f: Formula<i64>) -> i64 {
        match f {
            Formula::Zero => 0,
            Formula::One => 1,
            Formula::Two => 2,
            Formula::Sum(a, b) => a + b,
            Formula::Difference(a, b) => a - b,
            Formula::Product(a, b) => a * b,
            Formula::Tanh(a) => a.signum(),
            Formula::TanhSlope(_) => 0,
        }
    }
    let mut t = Tape::new(whole);
    let a = t.input(7);
    let x = t.mul(a, a);
    let y = t.sub(x, a);
    assert_eq!(t.value(y), 42);
    backprop(&mut t, y);
    assert_eq!(t.grad(a), 15);
}
