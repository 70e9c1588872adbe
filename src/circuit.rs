//! The register of qubits and the gates applied to it.
use vstd::arithmetic::power2::{lemma2_to64, lemma_pow2_strictly_increases, lemma_pow2_unfold, pow2};
use vstd::prelude::*;

use crate::builder::{
    cnot_operator, cnot_operator_of, single_operator, single_qubit_operator, Gate,
};
use crate::operator::{ints, OperatorModel};
use crate::state::{
    application_fits, apply_model, apply_operator, reduce, StateModel, StateVector,
};

verus! {

/// Why a register could not be made or a gate could not be applied.
#[derive(Clone, Copy, Debug, PartialEq, Eq, Structural)]
pub enum CircuitError {
    /// A register needs at least one qubit.
    NoQubits,
    /// `2^n` does not fit in a `usize`.
    TooManyQubits,
    /// A qubit index is not below the number of qubits.
    QubitOutOfRange,
    /// CNOT was given the same qubit as target and control.
    SameQubit,
    /// The exact result does not fit in machine integers.
    Overflow,
}

/// A register of qubits with its dense state vector.
pub struct QCircuit {
    qubits: usize,
    state: StateVector,
}

/// The state `|0...0>` of `n` qubits: amplitude 1 at index 0, 0 elsewhere.
pub open spec fn initial_state(n: nat) -> StateModel {
    StateModel {
        amplitudes: Seq::new(pow2(n), |i: int| if i == 0 { 1int } else { 0int }),
        scale: 0,
    }
}

/// What `new(n)` gives: a register in `|0...0>`, or why there is none.
pub open spec fn new_outcome(n: nat) -> Result<StateModel, CircuitError> {
    if n == 0 {
        Err(CircuitError::NoQubits)
    } else if pow2(n) > usize::MAX {
        Err(CircuitError::TooManyQubits)
    } else {
        Ok(initial_state(n))
    }
}

/// Applying the full operator `op` to `s`: the new state, or `Overflow` where
/// the exact result does not fit in machine integers.
pub open spec fn operator_outcome(op: OperatorModel, s: StateModel) -> Result<StateModel, CircuitError> {
    if application_fits(op, s) {
        Ok(apply_model(op, s))
    } else {
        Err(CircuitError::Overflow)
    }
}

/// What a single-qubit gate on `target` does to the state `s` of `n` qubits.
pub open spec fn single_outcome(g: Gate, target: nat, n: nat, s: StateModel) -> Result<StateModel, CircuitError> {
    if target >= n {
        Err(CircuitError::QubitOutOfRange)
    } else {
        operator_outcome(single_operator(g, target, n), s)
    }
}

/// What CNOT on `target` under `control` does to the state `s` of `n` qubits.
pub open spec fn cnot_outcome(target: nat, control: nat, n: nat, s: StateModel) -> Result<StateModel, CircuitError> {
    if target >= n || control >= n {
        Err(CircuitError::QubitOutOfRange)
    } else if target == control {
        Err(CircuitError::SameQubit)
    } else {
        operator_outcome(cnot_operator(target, control, n), s)
    }
}

/// The result of a gate call and the state after it: a failed call leaves the
/// state as it was.
pub open spec fn effect(o: Result<StateModel, CircuitError>, before: StateModel) -> (Result<(), CircuitError>, StateModel) {
    match o {
        Ok(s) => (Ok(()), s),
        Err(e) => (Err(e), before),
    }
}

impl QCircuit {
    /// The number of qubits.
    pub closed spec fn qubit_count(&self) -> nat {
        self.qubits as nat
    }

    /// The state of the register.
    pub closed spec fn state_model(&self) -> StateModel {
        self.state@
    }

    /// At least one qubit, `2^n` fits in a `usize`, and the state has `2^n`
    /// amplitudes, in canonical form.
    pub open spec fn wf(&self) -> bool {
        &&& self.qubit_count() >= 1
        &&& pow2(self.qubit_count()) <= usize::MAX
        &&& self.state_model().amplitudes.len() == pow2(self.qubit_count())
        &&& reduce(self.state_model()) == self.state_model()
    }

    /// A register of `num_qubits` qubits in the state `|0...0>`.
    pub fn new(num_qubits: usize) -> (r: Result<QCircuit, CircuitError>)
        ensures
            match r {
                Ok(c) => {
                    &&& c.wf()
                    &&& c.qubit_count() == num_qubits
                    &&& new_outcome(num_qubits as nat) == Ok::<StateModel, CircuitError>(c.state_model())
                },
                Err(e) => new_outcome(num_qubits as nat) == Err::<StateModel, CircuitError>(e),
            },
    {
        if num_qubits == 0 {
            return Err(CircuitError::NoQubits);
        }
        let mut size: usize = 1;
        let mut i: usize = 0;
        proof {
            lemma2_to64();
        }
        while i < num_qubits
            invariant
                i <= num_qubits,
                size == pow2(i as nat),
            decreases num_qubits - i,
        {
            proof {
                lemma_pow2_unfold((i + 1) as nat);
            }
            match size.checked_mul(2) {
                None => {
                    proof {
                        if i + 1 < num_qubits {
                            lemma_pow2_strictly_increases((i + 1) as nat, num_qubits as nat);
                        }
                    }
                    return Err(CircuitError::TooManyQubits);
                },
                Some(s) => {
                    size = s;
                },
            }
            i += 1;
        }
        let mut amplitudes: Vec<i64> = Vec::new();
        let mut j: usize = 0;
        while j < size
            invariant
                j <= size,
                amplitudes@.len() == j,
                forall|k: int| 0 <= k < j ==> #[trigger] amplitudes@[k] == (if k == 0 { 1i64 } else { 0i64 }),
            decreases size - j,
        {
            if j == 0 {
                amplitudes.push(1);
            } else {
                amplitudes.push(0);
            }
            j += 1;
        }
        let c = QCircuit { qubits: num_qubits, state: StateVector { amplitudes, scale: 0 } };
        assert(c.state_model().amplitudes =~= initial_state(num_qubits as nat).amplitudes);
        Ok(c)
    }

    /// The state of the register.
    pub fn get_state(&self) -> (s: &StateVector)
        ensures
            s@ == self.state_model(),
    {
        &self.state
    }

    /// The number of qubits.
    pub fn num_qubits(&self) -> (n: usize)
        ensures
            n == self.qubit_count(),
    {
        self.qubits
    }

    fn apply_single(&mut self, gate: Gate, target: usize) -> (r: Result<(), CircuitError>)
        requires
            old(self).wf(),
        ensures
            final(self).wf(),
            final(self).qubit_count() == old(self).qubit_count(),
            (r, final(self).state_model()) == effect(
                single_outcome(gate, target as nat, old(self).qubit_count(), old(self).state_model()),
                old(self).state_model(),
            ),
    {
        if target >= self.qubits {
            return Err(CircuitError::QubitOutOfRange);
        }
        let op = single_qubit_operator(gate, target, self.qubits);
        match apply_operator(&op, &self.state) {
            None => Err(CircuitError::Overflow),
            Some(s) => {
                self.state = s;
                Ok(())
            },
        }
    }

    /// Applies the Pauli X gate to qubit `target_index`.
    pub fn x_gate(&mut self, target_index: usize) -> (r: Result<(), CircuitError>)
        requires
            old(self).wf(),
        ensures
            final(self).wf(),
            final(self).qubit_count() == old(self).qubit_count(),
            (r, final(self).state_model()) == effect(
                single_outcome(Gate::X, target_index as nat, old(self).qubit_count(), old(self).state_model()),
                old(self).state_model(),
            ),
    {
        self.apply_single(Gate::X, target_index)
    }

    /// Applies the Pauli Z gate to qubit `target_index`.
    pub fn z_gate(&mut self, target_index: usize) -> (r: Result<(), CircuitError>)
        requires
            old(self).wf(),
        ensures
            final(self).wf(),
            final(self).qubit_count() == old(self).qubit_count(),
            (r, final(self).state_model()) == effect(
                single_outcome(Gate::Z, target_index as nat, old(self).qubit_count(), old(self).state_model()),
                old(self).state_model(),
            ),
    {
        self.apply_single(Gate::Z, target_index)
    }

    /// Applies the Hadamard gate to qubit `target_index`.
    pub fn h_gate(&mut self, target_index: usize) -> (r: Result<(), CircuitError>)
        requires
            old(self).wf(),
        ensures
            final(self).wf(),
            final(self).qubit_count() == old(self).qubit_count(),
            (r, final(self).state_model()) == effect(
                single_outcome(Gate::H, target_index as nat, old(self).qubit_count(), old(self).state_model()),
                old(self).state_model(),
            ),
    {
        self.apply_single(Gate::H, target_index)
    }

    /// Applies CNOT: flips qubit `target_index` where qubit `control_index` is 1.
    pub fn cnot_gate(&mut self, target_index: usize, control_index: usize) -> (r: Result<(), CircuitError>)
        requires
            old(self).wf(),
        ensures
            final(self).wf(),
            final(self).qubit_count() == old(self).qubit_count(),
            (r, final(self).state_model()) == effect(
                cnot_outcome(target_index as nat, control_index as nat, old(self).qubit_count(), old(self).state_model()),
                old(self).state_model(),
            ),
    {
        if target_index >= self.qubits || control_index >= self.qubits {
            return Err(CircuitError::QubitOutOfRange);
        }
        if target_index == control_index {
            return Err(CircuitError::SameQubit);
        }
        let op = cnot_operator_of(target_index, control_index, self.qubits);
        match apply_operator(&op, &self.state) {
            None => Err(CircuitError::Overflow),
            Some(s) => {
                self.state = s;
                Ok(())
            },
        }
    }
}

} // verus!
