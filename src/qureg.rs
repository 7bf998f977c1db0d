use vstd::prelude::*;
use crate::error::BackendError;
use vstd::arithmetic::power2::{lemma2_to64, lemma_pow2_strictly_increases, lemma_pow2_unfold, pow2};

verus! {

/// Shape of a quantum register: how many qubits it holds and whether its state
/// is a density matrix or a state vector.
#[derive(Debug, Clone, Copy, PartialEq, Eq, Structural)]
pub struct Qureg {
    /// Number of qubits.
    pub number_qubits: u32,
    /// Whether the register holds a density matrix.
    pub is_density_matrix: bool,
}

impl Qureg {
    /// A register of `number_qubits` qubits.
    pub fn new(number_qubits: u32, is_density_matrix: bool) -> (r: Self)
        ensures
            r.number_qubits == number_qubits,
            r.is_density_matrix == is_density_matrix,
    {
        Qureg { number_qubits, is_density_matrix }
    }

    /// Checks that a state vector of `dimension` amplitudes (or a density
    /// matrix of `dimension` rows) fits the register: `dimension == 2^n`.
    pub fn check_dimension(&self, dimension: usize) -> (r: Result<(), BackendError>)
        ensures
            r is Ok <==> dimension as nat == pow2(self.number_qubits as nat),
            r is Err ==> r == Err::<(), BackendError>(
                BackendError::StateDimensionMismatch {
                    dimension,
                    number_qubits: self.number_qubits,
                },
            ),
    {
        if dimension == 0 {
            proof {
                vstd::arithmetic::power2::lemma_pow2_pos(self.number_qubits as nat);
            }
            return Err(BackendError::StateDimensionMismatch { dimension, number_qubits: self.number_qubits });
        }
        let mut d: usize = 1;
        let mut k: u32 = 0;
        proof {
            lemma2_to64();
        }
        while k < self.number_qubits
            invariant
                k <= self.number_qubits,
                d == pow2(k as nat),
                1 <= d <= dimension,
            decreases self.number_qubits - k,
        {
            proof {
                lemma_pow2_unfold((k + 1) as nat);
            }
            if d > dimension / 2 {
                assert(2 * d > dimension) by (nonlinear_arith)
                    requires d > dimension / 2;
                assert(pow2(self.number_qubits as nat) > dimension) by {
                    if k + 1 < self.number_qubits {
                        lemma_pow2_strictly_increases((k + 1) as nat, self.number_qubits as nat);
                    }
                }
                return Err(BackendError::StateDimensionMismatch { dimension, number_qubits: self.number_qubits });
            }
            d = d * 2;
            k = k + 1;
        }
        if d == dimension {
            Ok(())
        } else {
            Err(BackendError::StateDimensionMismatch { dimension, number_qubits: self.number_qubits })
        }
    }

    /// Returns the number of qubits in the register.
    pub fn number_qubits(&self) -> (r: u32)
        ensures
            r == self.number_qubits,
    {
        self.number_qubits
    }
}

/// Shape of a square complex matrix acting on a number of qubits.
#[derive(Debug, Clone, Copy, PartialEq, Eq, Structural)]
pub struct ComplexMatrixN {
    /// Rows (and columns) of the matrix: `2^number_qubits`.
    pub dimension: usize,
}

impl ComplexMatrixN {
    /// A matrix on `number_qubits` qubits.
    pub fn new(number_qubits: u32) -> (r: Self)
        requires
            pow2(number_qubits as nat) <= usize::MAX,
        ensures
            r.dimension == pow2(number_qubits as nat),
    {
        let mut d: usize = 1;
        let mut k: u32 = 0;
        proof {
            lemma2_to64();
        }
        while k < number_qubits
            invariant
                k <= number_qubits,
                d == pow2(k as nat),
                pow2(number_qubits as nat) <= usize::MAX,
            decreases number_qubits - k,
        {
            proof {
                lemma_pow2_unfold((k + 1) as nat);
            }
            assert(pow2((k + 1) as nat) <= usize::MAX) by {
                if k + 1 < number_qubits {
                    lemma_pow2_strictly_increases((k + 1) as nat, number_qubits as nat);
                }
            }
            d = d * 2;
            k = k + 1;
        }
        ComplexMatrixN { dimension: d }
    }

    /// Whether (`row`, `column`) is a position of the matrix.
    pub fn contains(&self, row: usize, column: usize) -> (r: bool)
        ensures
            r == (row < self.dimension && column < self.dimension),
    {
        row < self.dimension && column < self.dimension
    }
}

} // verus!
