//! The weighted sum that a neuron puts in front of its activation.

use vstd::prelude::*;
use crate::formula::{computed, gives, Formula};
use crate::tape::{lemma_still_computed, Tape};
use crate::value_ops::{AddOperation, MulOperation, NoneOperation, Operation};

verus! {

/// The nodes of a weighted sum.
pub struct WeightedSum {
    /// The leaves that hold the weights, one for each input.
    pub weights: Vec<usize>,
    /// The leaf that holds the bias.
    pub bias: usize,
    /// The bias plus the products of the weights and the inputs.
    pub sum: usize,
}

/// The node that holds the bias and the first `k` terms, in a weighted sum of
/// `n` inputs that was appended to a graph of `base` nodes.
pub open spec fn partial_sum(base: nat, n: nat, k: nat) -> nat {
    if k == 0 {
        base + n
    } else {
        base + n + 2 * k
    }
}

/// The two operations of each of the first `k` terms of a weighted sum: the
/// product of the weight and the input, and the sum so far plus that product.
pub open spec fn terms(base: nat, inputs: Seq<usize>, k: nat) -> Seq<Operation>
    decreases k,
{
    if k == 0 {
        Seq::empty()
    } else {
        let j = (k - 1) as nat;
        terms(base, inputs, j).push(
            Operation::Multiply(MulOperation { a: (base + j) as usize, b: inputs[j as int] }),
        ).push(
            Operation::Add(
                AddOperation {
                    a: partial_sum(base, inputs.len(), j) as usize,
                    b: (base + inputs.len() + 1 + 2 * j) as usize,
                },
            ),
        )
    }
}

/// The operations of a weighted sum of the given inputs, appended to a graph
/// of `base` nodes: a leaf for each weight, a leaf for the bias, and the terms.
pub open spec fn sum_ops(base: nat, inputs: Seq<usize>) -> Seq<Operation> {
    Seq::new(inputs.len() + 1, |i: int| Operation::Input(NoneOperation {  })) + terms(
        base,
        inputs,
        inputs.len(),
    )
}

proof fn lemma_terms_len(base: nat, inputs: Seq<usize>, k: nat)
    ensures
        terms(base, inputs, k).len() == 2 * k,
    decreases k,
{
    if k > 0 {
        lemma_terms_len(base, inputs, (k - 1) as nat);
    }
}

/// Appends to the tape the weighted sum of the given inputs: new leaves with
/// the given weights, one for each input and in their order, a new leaf with
/// the given bias, and then, input by input, the product of weight and input
/// and the sum so far plus that product, the sum starting from the bias.
pub fn weighted_sum<S: Copy, F: Fn(Formula<S>) -> S>(
    tape: &mut Tape<S, F>,
    inputs: &Vec<usize>,
    weights: &Vec<S>,
    bias: S,
) -> (r: WeightedSum)
    requires
        old(tape).wf(),
        weights@.len() == inputs@.len(),
        forall|k: int| 0 <= k < inputs@.len() ==> old(tape).contains(#[trigger] inputs@[k]),
    ensures
        final(tape).wf(),
        final(tape).arith() == old(tape).arith(),
        final(tape).ops() == old(tape).ops() + sum_ops(old(tape).ops().len(), inputs@),
        final(tape).ops().len() == old(tape).ops().len() + 3 * inputs@.len() + 1,
        forall|i: int|
            0 <= i < old(tape).ops().len() ==> #[trigger] final(tape).values()[i] == old(
                tape,
            ).values()[i],
        forall|i: int|
            0 <= i < old(tape).ops().len() ==> #[trigger] final(tape).grads()[i] == old(
                tape,
            ).grads()[i],
        r.weights@.len() == inputs@.len(),
        forall|k: int|
            0 <= k < inputs@.len() ==> (#[trigger] r.weights@[k]) == old(tape).ops().len() + k
                && final(tape).values()[r.weights@[k] as int] == weights@[k],
        r.bias == old(tape).ops().len() + inputs@.len(),
        final(tape).values()[r.bias as int] == bias,
        r.sum == partial_sum(old(tape).ops().len(), inputs@.len(), inputs@.len()),
        forall|i: int|
            old(tape).ops().len() <= i < final(tape).ops().len() ==> gives(
                final(tape).arith(),
                Formula::Zero,
                #[trigger] final(tape).grads()[i],
            ),
        forall|i: int|
            old(tape).ops().len() <= i < final(tape).ops().len() ==> computed(
                final(tape).arith(),
                final(tape).ops()[i],
                final(tape).values(),
                #[trigger] final(tape).values()[i],
            ),
        old(tape).current() ==> final(tape).current(),
{
    let ghost base = old(tape).ops().len();
    let ghost n = inputs@.len();
    let ghost leaf = Operation::Input(NoneOperation {  });
    let mut ids: Vec<usize> = Vec::new();
    let mut k: usize = 0;
    proof {
        assert(tape.ops() =~= old(tape).ops() + Seq::new(0, |i: int| leaf));
    }
    while k < weights.len()
        invariant
            k <= n,
            n == weights@.len(),
            n == inputs@.len(),
            base == old(tape).ops().len(),
            leaf == Operation::Input(NoneOperation {  }),
            tape.wf(),
            tape.arith() == old(tape).arith(),
            old(tape).current() ==> tape.current(),
            tape.ops() == old(tape).ops() + Seq::new(k as nat, |i: int| leaf),
            forall|i: int| 0 <= i < base ==> #[trigger] tape.values()[i] == old(tape).values()[i],
            forall|i: int| 0 <= i < base ==> #[trigger] tape.grads()[i] == old(tape).grads()[i],
            ids@.len() == k,
            forall|j: int|
                0 <= j < k ==> (#[trigger] ids@[j]) == base + j && tape.values()[ids@[j] as int]
                    == weights@[j],
            forall|i: int|
                base <= i < tape.ops().len() ==> gives(
                    tape.arith(),
                    Formula::Zero,
                    #[trigger] tape.grads()[i],
                ),
        decreases n - k,
    {
        let id = tape.input(weights[k]);
        ids.push(id);
        proof {
            assert(tape.ops() =~= old(tape).ops() + Seq::new((k + 1) as nat, |i: int| leaf));
        }
        k += 1;
    }
    let b = tape.input(bias);
    proof {
        assert(tape.ops() =~= old(tape).ops() + Seq::new(n + 1, |i: int| leaf) + terms(
            base,
            inputs@,
            0,
        ));
    }
    let mut acc = b;
    let mut k: usize = 0;
    while k < inputs.len()
        invariant
            k <= n,
            n == inputs@.len(),
            n == weights@.len(),
            base == old(tape).ops().len(),
            leaf == Operation::Input(NoneOperation {  }),
            forall|j: int| 0 <= j < n ==> (#[trigger] inputs@[j]) < base,
            tape.wf(),
            tape.arith() == old(tape).arith(),
            old(tape).current() ==> tape.current(),
            tape.ops() == old(tape).ops() + Seq::new(n + 1, |i: int| leaf) + terms(
                base,
                inputs@,
                k as nat,
            ),
            forall|i: int| 0 <= i < base ==> #[trigger] tape.values()[i] == old(tape).values()[i],
            forall|i: int| 0 <= i < base ==> #[trigger] tape.grads()[i] == old(tape).grads()[i],
            ids@.len() == n,
            forall|j: int|
                0 <= j < n ==> (#[trigger] ids@[j]) == base + j && tape.values()[ids@[j] as int]
                    == weights@[j],
            b == base + n,
            tape.values()[b as int] == bias,
            acc == partial_sum(base, n, k as nat),
            forall|i: int|
                base <= i < tape.ops().len() ==> gives(
                    tape.arith(),
                    Formula::Zero,
                    #[trigger] tape.grads()[i],
                ),
            forall|i: int|
                base <= i < tape.ops().len() ==> computed(
                    tape.arith(),
                    tape.ops()[i],
                    tape.values(),
                    #[trigger] tape.values()[i],
                ),
        decreases n - k,
    {
        proof {
            lemma_terms_len(base, inputs@, k as nat);
            assert(ids@[k as int] == base + k);
        }
        let ghost was = *tape;
        let prod = tape.mul(ids[k], inputs[k]);
        let ghost mid = *tape;
        proof {
            lemma_still_computed(tape, &was, mid.ops().last(), base);
        }
        acc = tape.add(acc, prod);
        proof {
            lemma_still_computed(tape, &mid, tape.ops().last(), base);
            assert(tape.ops() =~= old(tape).ops() + Seq::new(n + 1, |i: int| leaf) + terms(
                base,
                inputs@,
                (k + 1) as nat,
            ));
        }
        k += 1;
    }
    proof {
        lemma_terms_len(base, inputs@, n);
        assert(tape.ops() =~= old(tape).ops() + sum_ops(base, inputs@));
    }
    WeightedSum { weights: ids, bias: b, sum: acc }
}

} // verus!
