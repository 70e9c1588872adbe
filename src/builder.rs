//! Full-register operators of the gates, folded qubit by qubit from 2 by 2
//! blocks with the Kronecker product.
use vstd::arithmetic::power2::{
    lemma2_to64, lemma_pow2_strictly_increases, lemma_pow2_unfold, pow2,
};
use vstd::prelude::*;

use crate::circuit::QCircuit;
use crate::operator::{
    add_operators, block_model, block_operator, is_square, kron_entries, kron_model,
    lemma_kron_units, sum_model, sums_fit, unit_entries, Block, Operator, OperatorModel,
};

verus! {

/// The gates that act on a single qubit.
#[derive(Clone, Copy, Debug, PartialEq, Eq, Structural)]
pub enum Gate {
    X,
    Z,
    H,
}

/// The 2 by 2 block of a single-qubit gate.
pub open spec fn gate_block(g: Gate) -> Block {
    match g {
        Gate::X => Block::PauliX,
        Gate::Z => Block::PauliZ,
        Gate::H => Block::Hadamard,
    }
}

/// The block that a single-qubit gate on `target` puts at qubit `q`.
pub open spec fn single_factor(g: Gate, target: nat, q: nat) -> Block {
    if q == target {
        gate_block(g)
    } else {
        Block::Identity
    }
}

/// The operator of a single-qubit gate on `target`, restricted to qubits
/// `0..=q`: the blocks of those qubits folded left to right by the Kronecker
/// product.
pub open spec fn single_chain(g: Gate, target: nat, q: nat) -> OperatorModel
    decreases q,
{
    if q == 0 {
        block_model(single_factor(g, target, 0))
    } else {
        kron_model(single_chain(g, target, (q - 1) as nat), block_model(single_factor(g, target, q)))
    }
}

/// The full operator of a single-qubit gate on `target` in a register of `n`
/// qubits.
pub open spec fn single_operator(g: Gate, target: nat, n: nat) -> OperatorModel {
    single_chain(g, target, (n - 1) as nat)
}

/// The blocks that CNOT puts at qubit `q` in its two chains: the chain where
/// the control is 0 and the chain where it is 1.
pub open spec fn cnot_factors(target: nat, control: nat, q: nat) -> (Block, Block) {
    if q == target {
        (Block::Identity, Block::PauliX)
    } else if q == control {
        (Block::Proj0, Block::Proj1)
    } else {
        (Block::Identity, Block::Identity)
    }
}

/// The two chains of CNOT, restricted to qubits `0..=q`.
pub open spec fn cnot_chains(target: nat, control: nat, q: nat) -> (OperatorModel, OperatorModel)
    decreases q,
{
    let f = cnot_factors(target, control, q);
    if q == 0 {
        (block_model(f.0), block_model(f.1))
    } else {
        let p = cnot_chains(target, control, (q - 1) as nat);
        (kron_model(p.0, block_model(f.0)), kron_model(p.1, block_model(f.1)))
    }
}

/// The full CNOT operator in a register of `n` qubits: the sum of its chains.
pub open spec fn cnot_operator(target: nat, control: nat, n: nat) -> OperatorModel {
    let p = cnot_chains(target, control, (n - 1) as nat);
    sum_model(p.0, p.1)
}

/// Every block is a square 2 by 2 matrix of unit entries.
pub proof fn lemma_block_shape(k: Block)
    ensures
        is_square(block_model(k).entries),
        block_model(k).entries.len() == 2,
        unit_entries(block_model(k).entries),
        block_model(k).scale <= 1,
        k != Block::Hadamard ==> block_model(k).scale == 0,
{
}

/// The shape of a chain: square, of size `2^(q+1)`, with unit entries.
pub proof fn lemma_chain_step(prev: OperatorModel, k: Block)
    requires
        is_square(prev.entries),
        unit_entries(prev.entries),
    ensures
        is_square(kron_model(prev, block_model(k)).entries),
        unit_entries(kron_model(prev, block_model(k)).entries),
        kron_model(prev, block_model(k)).entries.len() == prev.entries.len() * 2,
{
    lemma_block_shape(k);
    lemma_kron_units(prev.entries, block_model(k).entries);
}

/// Each single-qubit chain is square, of size `2^(q+1)`, with unit entries;
/// its scale is 1 once it holds the Hadamard block, else 0.
pub proof fn lemma_single_chain_shape(g: Gate, target: nat, q: nat)
    ensures
        is_square(single_chain(g, target, q).entries),
        unit_entries(single_chain(g, target, q).entries),
        single_chain(g, target, q).entries.len() == pow2(q + 1),
        single_chain(g, target, q).scale == (if g == Gate::H && target <= q { 1nat } else { 0nat }),
    decreases q,
{
    lemma_pow2_unfold(q + 1);
    lemma_block_shape(single_factor(g, target, q));
    if q == 0 {
        lemma2_to64();
    } else {
        lemma_single_chain_shape(g, target, (q - 1) as nat);
        assert(((q - 1) as nat) + 1 == q);
        lemma_chain_step(single_chain(g, target, (q - 1) as nat), single_factor(g, target, q));
    }
}

/// Both CNOT chains are square, of size `2^(q+1)`, with unit entries and scale 0.
pub proof fn lemma_cnot_chains_shape(target: nat, control: nat, q: nat)
    ensures
        is_square(cnot_chains(target, control, q).0.entries),
        is_square(cnot_chains(target, control, q).1.entries),
        unit_entries(cnot_chains(target, control, q).0.entries),
        unit_entries(cnot_chains(target, control, q).1.entries),
        cnot_chains(target, control, q).0.entries.len() == pow2(q + 1),
        cnot_chains(target, control, q).1.entries.len() == pow2(q + 1),
        cnot_chains(target, control, q).0.scale == 0,
        cnot_chains(target, control, q).1.scale == 0,
    decreases q,
{
    let f = cnot_factors(target, control, q);
    lemma_pow2_unfold(q + 1);
    lemma_block_shape(f.0);
    lemma_block_shape(f.1);
    if q == 0 {
        lemma2_to64();
    } else {
        let p = cnot_chains(target, control, (q - 1) as nat);
        lemma_cnot_chains_shape(target, control, (q - 1) as nat);
        assert(((q - 1) as nat) + 1 == q);
        lemma_chain_step(p.0, f.0);
        lemma_chain_step(p.1, f.1);
    }
}

fn gate_block_of(g: Gate) -> (k: Block)
    ensures
        k == gate_block(g),
{
    match g {
        Gate::X => Block::PauliX,
        Gate::Z => Block::PauliZ,
        Gate::H => Block::Hadamard,
    }
}

fn cnot_factors_of(target: usize, control: usize, q: usize) -> (f: (Block, Block))
    ensures
        f == cnot_factors(target as nat, control as nat, q as nat),
{
    if q == target {
        (Block::Identity, Block::PauliX)
    } else if q == control {
        (Block::Proj0, Block::Proj1)
    } else {
        (Block::Identity, Block::Identity)
    }
}

/// Builds the full operator of a single-qubit gate on `target` in a register of
/// `qubits` qubits.
pub fn single_qubit_operator(gate: Gate, target: usize, qubits: usize) -> (op: Operator)
    requires
        target < qubits,
        pow2(qubits as nat) <= usize::MAX,
    ensures
        op@ == single_operator(gate, target as nat, qubits as nat),
        is_square(op@.entries),
        op@.entries.len() == pow2(qubits as nat),
{
    let active = gate_block_of(gate);
    let mut op = if target == 0 {
        block_operator(active)
    } else {
        block_operator(Block::Identity)
    };
    let mut q: usize = 1;
    while q < qubits
        invariant
            target < qubits,
            pow2(qubits as nat) <= usize::MAX,
            active == gate_block(gate),
            1 <= q <= qubits,
            op@ == single_chain(gate, target as nat, (q - 1) as nat),
        decreases qubits - q,
    {
        proof {
            lemma_single_chain_shape(gate, target as nat, (q - 1) as nat);
            lemma_block_shape(single_factor(gate, target as nat, q as nat));
            lemma_kron_units(op@.entries, block_model(single_factor(gate, target as nat, q as nat)).entries);
            lemma_pow2_unfold((q + 1) as nat);
            if q + 1 < qubits {
                lemma_pow2_strictly_increases((q + 1) as nat, qubits as nat);
            }
        }
        let factor = if q == target {
            block_operator(active)
        } else {
            block_operator(Block::Identity)
        };
        op = QCircuit::kron(&op, &factor);
        q += 1;
    }
    proof {
        lemma_single_chain_shape(gate, target as nat, (qubits - 1) as nat);
    }
    op
}

/// Builds the full CNOT operator flipping `target` where `control` is 1, in a
/// register of `qubits` qubits.
pub fn cnot_operator_of(target: usize, control: usize, qubits: usize) -> (op: Operator)
    requires
        target < qubits,
        control < qubits,
        target != control,
        pow2(qubits as nat) <= usize::MAX,
    ensures
        op@ == cnot_operator(target as nat, control as nat, qubits as nat),
        is_square(op@.entries),
        op@.entries.len() == pow2(qubits as nat),
{
    let first = cnot_factors_of(target, control, 0);
    let mut low = block_operator(first.0);
    let mut high = block_operator(first.1);
    let mut q: usize = 1;
    while q < qubits
        invariant
            target < qubits,
            control < qubits,
            pow2(qubits as nat) <= usize::MAX,
            1 <= q <= qubits,
            (low@, high@) == cnot_chains(target as nat, control as nat, (q - 1) as nat),
        decreases qubits - q,
    {
        let f = cnot_factors_of(target, control, q);
        proof {
            lemma_cnot_chains_shape(target as nat, control as nat, (q - 1) as nat);
            lemma_block_shape(f.0);
            lemma_block_shape(f.1);
            lemma_kron_units(low@.entries, block_model(f.0).entries);
            lemma_kron_units(high@.entries, block_model(f.1).entries);
            lemma_pow2_unfold((q + 1) as nat);
            if q + 1 < qubits {
                lemma_pow2_strictly_increases((q + 1) as nat, qubits as nat);
            }
        }
        let low_factor = block_operator(f.0);
        let high_factor = block_operator(f.1);
        low = QCircuit::kron(&low, &low_factor);
        high = QCircuit::kron(&high, &high_factor);
        q += 1;
    }
    proof {
        let n1 = (qubits - 1) as nat;
        lemma_cnot_chains_shape(target as nat, control as nat, n1);
        assert(sums_fit(low@.entries, high@.entries)) by {
            assert forall|i: int, j: int|
                0 <= i < low@.entries.len() && 0 <= j < low@.entries[i].len()
                implies crate::operator::in_i64(#[trigger] low@.entries[i][j] + high@.entries[i][j]) by {
                assert(-1 <= high@.entries[i][j] <= 1);
            }
        }
    }
    let op = add_operators(&low, &high);
    op
}

} // verus!
