use autodiff::{
    AddOperation, Factor, Graph, MulOperation, NoneOperation, Operation, Push, SubOperation,
    TanhOperation,
};

fn diamond() -> (Graph, [usize; 6]) {
    let mut g = Graph::new();
    let a = g.input();
    let b = g.input();
    let x = g.mul(a, b);
    let y = g.add(x, a);
    let w = g.add(x, b);
    let z = g.mul(y, w);
    (g, [a, b, x, y, w, z])
}

fn push(target: usize, source: usize, factor: Factor) -> Push {
    Push { target, source, factor }
}

#[test]
fn nodes_are_numbered_as_they_are_added() {
    let (g, ids) = diamond();
    assert_eq!(ids, [0, 1, 2, 3, 4, 5]);
    assert_eq!(g.len(), 6);
    assert_eq!(g.operation(0), Operation::Input(NoneOperation {}));
    assert_eq!(g.operation(2), Operation::Multiply(MulOperation { a: 0, b: 1 }));
    assert_eq!(g.operation(3), Operation::Add(AddOperation { a: 2, b: 0 }));
    assert!(g.is_input(1));
    assert!(!g.is_input(5));
}

#[test]
fn empty_graph() {
    let g = Graph::new();
    assert_eq!(g.len(), 0);
}

#[test]
fn dependencies_in_order() {
    let mut g = Graph::new();
    let a = g.input();
    let b = g.input();
    let d = g.sub(b, a);
    let h = g.tanh(d);
    let s = g.mul(h, h);
    assert_eq!(g.dependencies(a), Vec::<usize>::new());
    assert_eq!(g.dependencies(d), vec![b, a]);
    assert_eq!(g.dependencies(h), vec![d]);
    assert_eq!(g.dependencies(s), vec![h, h]);
    assert_eq!(g.operation(d), Operation::Subtract(SubOperation { a: b, b: a }));
    assert_eq!(g.operation(h), Operation::Tanh(TanhOperation { a: d }));
}

#[test]
fn forward_schedule_names_operands_first() {
    let (g, [a, b, x, y, w, z]) = diamond();
    assert_eq!(g.forward_schedule(z), vec![a, b, x, y, w, z]);
    assert_eq!(g.forward_schedule(w), vec![a, b, x, w]);
    assert_eq!(g.forward_schedule(a), vec![a]);
}

#[test]
fn forward_schedule_follows_the_operands_not_the_numbers() {
    let mut g = Graph::new();
    let a = g.input();
    let b = g.input();
    let c = g.input();
    let p = g.mul(c, a);
    let q = g.add(p, b);
    assert_eq!(g.forward_schedule(q), vec![c, a, p, b, q]);
    let s = g.mul(q, q);
    assert_eq!(g.forward_schedule(s), vec![c, a, p, b, q, s]);
}

#[test]
fn sweep_discovers_every_node_once() {
    let (g, [a, b, x, y, w, z]) = diamond();
    assert_eq!(g.discover(z), vec![z, y, w, x, b, a]);
    assert_eq!(g.discover(y), vec![y, x, a, b]);
    assert_eq!(g.discover(b), vec![b]);
}

#[test]
fn backward_step_of_each_operation() {
    let mut g = Graph::new();
    let a = g.input();
    let b = g.input();
    let s = g.add(a, b);
    let d = g.sub(a, b);
    let p = g.mul(a, b);
    let q = g.mul(a, a);
    let h = g.tanh(b);
    let twice = g.add(b, b);
    assert_eq!(g.back(a), vec![]);
    assert_eq!(g.back(s), vec![push(a, s, Factor::One), push(b, s, Factor::One)]);
    assert_eq!(g.back(d), vec![push(a, d, Factor::One), push(b, d, Factor::One)]);
    assert_eq!(
        g.back(p),
        vec![push(a, p, Factor::ValueOf(b)), push(b, p, Factor::ValueOf(a))]
    );
    assert_eq!(g.back(q), vec![push(a, q, Factor::TwiceValueOf(a))]);
    assert_eq!(g.back(h), vec![push(b, h, Factor::TanhSlopeAt(b))]);
    assert_eq!(g.back(twice), vec![push(b, twice, Factor::One), push(b, twice, Factor::One)]);
}

#[test]
fn backward_plan_of_the_diamond() {
    let (g, [a, b, x, y, w, z]) = diamond();
    assert_eq!(
        g.backward_plan(z),
        vec![
            push(y, z, Factor::ValueOf(w)),
            push(w, z, Factor::ValueOf(y)),
            push(x, y, Factor::One),
            push(a, y, Factor::One),
            push(x, w, Factor::One),
            push(b, w, Factor::One),
            push(a, x, Factor::ValueOf(b)),
            push(b, x, Factor::ValueOf(a)),
        ]
    );
    assert_eq!(g.backward_plan(a), vec![]);
}

#[test]
fn operations_alone() {
    let none = NoneOperation::new();
    assert_eq!(none.node(), Vec::<usize>::new());
    assert_eq!(none.back(9), vec![]);
    let sum = AddOperation::new(1, 2);
    assert_eq!(sum.node(), vec![1, 2]);
    assert_eq!(sum.back(3), vec![push(1, 3, Factor::One), push(2, 3, Factor::One)]);
    let difference = SubOperation::new(2, 1);
    assert_eq!(difference.node(), vec![2, 1]);
    assert_eq!(difference.back(3), vec![push(2, 3, Factor::One), push(1, 3, Factor::One)]);
    let product = MulOperation::new(1, 2);
    assert_eq!(product.node(), vec![1, 2]);
    assert_eq!(
        product.back(3),
        vec![push(1, 3, Factor::ValueOf(2)), push(2, 3, Factor::ValueOf(1))]
    );
    let square = MulOperation::new(2, 2);
    assert_eq!(square.node(), vec![2, 2]);
    assert_eq!(square.back(3), vec![push(2, 3, Factor::TwiceValueOf(2))]);
    let curve = TanhOperation::new(0);
    assert_eq!(curve.node(), vec![0]);
    assert_eq!(curve.back(3), vec![push(0, 3, Factor::TanhSlopeAt(0))]);
    let op = Operation::Multiply(square);
    assert!(!op.is_input());
    assert_eq!(op.dependencies(), vec![2, 2]);
    assert_eq!(op.back(5), vec![push(2, 5, Factor::TwiceValueOf(2))]);
    assert!(Operation::Input(none).is_input());
}
