//! Symmetry-aware finite-difference machinery for anharmonic force fields.
//!
//! A quartic force field is computed by sampling a potential-energy surface at
//! displaced geometries and combining the sampled energies with central
//! finite-difference stencils.  The expensive part, evaluating one energy, is
//! done by an external quantum-chemistry program through a batch scheduler;
//! everything that decides *which* samples are needed, how the resulting jobs
//! are drained, and how the energies are folded into force-constant tensors is
//! plain discrete logic and is verified here.
//!
//! The crate works on an integer model of the problem:
//! * a displacement signature is a step-count vector over the `n = 3 * atoms`
//!   Cartesian coordinates ([`sig`]);
//! * a point-group operation is a signed permutation of those coordinates
//!   ([`symmetry`]);
//! * the registry canonicalizes signatures under the group and deduplicates
//!   them into densely numbered targets ([`registry`]);
//! * the point builder enumerates the stencil samples a derivative order
//!   requires and records, per target, its uses in the force-constant buffer
//!   ([`points`], [`stencil`]);
//! * the draining engine is a state machine over job ids; the caller performs
//!   the actual submission and polling and feeds events back ([`drain`]);
//! * the assembler mirrors computed entries to every symmetric tensor position
//!   ([`assemble`]);
//! * an outer run sweeps a probe position over an integer grid, with the
//!   geometry-template checks and the checkpoint records in [`grid`] and a
//!   run-time decision procedure for point-group validity in [`groupcheck`].
//!
//! Energies travel through the engine as opaque 64-bit payloads (the caller's
//! bit-level encoding of its floating-point values); the engine only routes
//! them by job id, so nothing is lost by the opaque view.

pub mod assemble;
pub mod drain;
pub mod grid;
pub mod groupcheck;
pub mod points;
pub mod registry;
pub mod sig;
pub mod stencil;
pub mod symmetry;

use vstd::prelude::*;

verus! {

/// Greatest coordinate count the crate accepts: `n = 3 * atoms` for up to 60
/// real atoms.  Keeping `n` small bounds every tensor size well below
/// `usize::MAX` even on 32-bit targets.
pub const MAX_COORDS: usize = 180;

} // verus!
