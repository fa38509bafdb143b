//! Reducing k-SAT instances to QUBO problems and minimizing them.
//!
//! - `qubo`: the QUBO matrix, the energy `xᵀ·S·x` and the single-flip delta
//!   calculus; `ising` the Ising form: energies and the round trip.
//! - `sat`, `threesat`: k-SAT problems, their solutions, and widening to 3-SAT.
//! - `reducers`, `nusslein`, `reduction`: the SAT to QUBO encodings (Choi,
//!   Chancellor, Nüsslein 2022 and 2023) and the readers of their solutions;
//!   `widening` encodes clauses of more than three literals with counting
//!   ancillas; `soundness` proves that the 2023 encoding's minimizers satisfy
//!   the problem.
//! - `es`, `pes`, `sa`: the exhaustive and parallel exhaustive minimizers, and
//!   the bookkeeping of simulated annealing.
//! - `pipeline`: reduce, minimize, read back and check.
//! - `matrix`, `record`, `error`, `problem`: supporting types.
pub mod error;
pub mod es;
pub mod ising;
pub mod matrix;
pub mod nusslein;
pub mod pes;
pub mod pipeline;
pub mod problem;
pub mod qubo;
pub mod record;
pub mod reducers;
pub mod reduction;
pub mod sa;
pub mod sat;
pub mod soundness;
pub mod threesat;
pub mod widening;
