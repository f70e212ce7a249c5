//! Small helpers that generate and rearrange flat numeric sequences.
//!
//! Every function returns a freshly allocated vector and leaves its inputs
//! untouched. Each contract is stated over the `Seq` view of the vectors and
//! slices involved.

pub mod misc;
