use autodiff::{backprop, reset, tanh, weighted_sum, Formula, Tape};
use rand::distributions::{Distribution, Uniform};
use rand::rngs::StdRng;
use rand::{Rng, SeedableRng};

type Engine = Tape<f32, fn(Formula<f32>) -> f32>;

fn arith(f: Formula<f32>) -> f32 {
    match f {
        Formula::Zero => 0.0,
        Formula::One => 1.0,
        Formula::Two => 2.0,
        Formula::Sum(a, b) => a + b,
        Formula::Difference(a, b) => a - b,
        Formula::Product(a, b) => a * b,
        Formula::Tanh(a) => a.tanh(),
        Formula::TanhSlope(a) => 1.0 - a.tanh().powi(2),
    }
}

struct Neuron {
    weights: Vec<usize>,
    bias: usize,
    output: usize,
}

fn new_neuron(t: &mut Engine, inputs: &[usize], rng: &mut StdRng) -> Neuron {
    let weights: Vec<f32> = inputs.iter().map(|_| rng.gen_range(-1.0..1.0)).collect();
    let bias: f32 = rng.gen_range(-1.0..1.0);
    let sum = weighted_sum(t, &inputs.to_vec(), &weights, bias);
    let output = tanh(t, sum.sum);
    Neuron { weights: sum.weights, bias: sum.bias, output }
}

const SMALL_CIRCLE_RADIUS: f32 = 0.25;
const BIG_CIRCLE_RADIUS: f32 = 0.5;

fn gen_data(sample_count: usize) -> Vec<(f32, f32, f32)> {
    let mut rng = StdRng::seed_from_u64(42);
    let dist = Uniform::new(-1.0, 1.0);
    let mut result = Vec::with_capacity(sample_count);
    for _ in 0..sample_count {
        let x: f32 = dist.sample(&mut rng);
        let y: f32 = dist.sample(&mut rng);
        let is_big_circle = x.powi(2) + y.powi(2) < BIG_CIRCLE_RADIUS.powi(2);
        let is_small_circle =
            (x - 0.8).powi(2) + (y - 0.8).powi(2) < SMALL_CIRCLE_RADIUS.powi(2);
        let value = (x, y, if is_big_circle || is_small_circle { 1.0 } else { -1.0 });
        result.push(value);
    }
    result
}

#[test]
fn test_neuron_shape() {
    let mut t: Engine = Tape::new(arith as fn(Formula<f32>) -> f32);
    let x = t.input(1.0);
    let y = t.input(-2.0);
    let inputs = vec![x, y];

    let mut rng = StdRng::seed_from_u64(42);
    let mut hidden_layer: Vec<Neuron> = Vec::new();
    for _ in 0..3 {
        hidden_layer.push(new_neuron(&mut t, &inputs, &mut rng));
    }
    let outputs = hidden_layer.iter().map(|n| n.output).collect::<Vec<_>>();
    let output = new_neuron(&mut t, &outputs, &mut rng);

    let mut data = gen_data(4000);
    let (training_data, _test_data) = data.split_at_mut(2000);

    let batch_size = 10;
    let step_size = 0.03;

    let mut weights = Vec::default();
    for n in hidden_layer.iter() {
        weights.extend(n.weights.iter().copied());
        weights.push(n.bias);
    }
    weights.extend(output.weights.iter().copied());
    weights.push(output.bias);

    let expected = t.input(1.0);
    let mut loss = t.sub(output.output, expected);
    loss = t.mul(loss, loss);
    let epoch_count = 200;

    for epoch in 0..epoch_count {
        let mut error = 0.0;
        for batch in training_data.chunks(batch_size) {
            let mut grads = vec![0.0; weights.len()];
            for &(xv, yv, ev) in batch.iter() {
                t.set_value(x, xv);
                t.set_value(y, yv);
                t.set_value(expected, ev);

                t.forward(loss);
                error += t.value(loss);
                backprop(&mut t, loss);
                for (j, w) in weights.iter().enumerate() {
                    grads[j] += t.grad(*w) / batch_size as f32;
                }
                reset(&mut t, loss);
            }
            for (j, w) in weights.iter().enumerate() {
                let v = t.value(*w);
                t.set_value(*w, v - step_size * grads[j]);
            }
            grads.fill(0.0);
        }
        println!("epoch: {}, error: {}", epoch, error / training_data.len() as f32);
    }
}

#[test]
fn neuron_is_a_weighted_sum_under_an_activation() {
    let mut t: Engine = Tape::new(arith as fn(Formula<f32>) -> f32);
    let x = t.input(1.0);
    let y = t.input(-2.0);
    let mut rng = StdRng::seed_from_u64(7);
    let n = new_neuron(&mut t, &[x, y], &mut rng);
    assert_eq!(n.weights, vec![2, 3]);
    assert_eq!(n.bias, 4);
    assert_eq!(n.output, 9);
    let (w0, w1, b) = (t.value(n.weights[0]), t.value(n.weights[1]), t.value(n.bias));
    for v in [w0, w1, b] {
        assert!((-1.0..1.0).contains(&v));
    }
    assert_eq!(t.value(n.output), ((b + w0 * 1.0) + w1 * -2.0).tanh());
}
