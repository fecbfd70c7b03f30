//! A progressive radiosity solver over flat surface patches.
//!
//! The solver is generic over the sample type `T` that carries radiance,
//! emission, reflectance and transfer weights. The arithmetic on samples is
//! handed in by the caller as closures, so the library itself only decides
//! which samples meet which weights, in which order, and where results go.
pub mod channel;
pub mod extent;
pub mod blocklist;
pub mod radbuf;
pub mod kernel;
pub mod chunk;
pub mod scene;
pub mod laws;
