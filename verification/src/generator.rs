//! Configuration for the workload generator that the profiler measures.
//!
//! The generator itself draws random floating-point coordinate pairs, which
//! is outside what this crate models; here live its plain configuration
//! values, so callers and tests can build and inspect them under contract.

use vstd::prelude::*;

verus! {

/// How generated points are spread: uniformly over the whole domain, or in
/// clusters.
#[derive(Clone, Copy, PartialEq, Eq, Structural, Debug)]
pub enum Type {
    Uniform,
    Cluster,
}

impl Type {
    /// The spelling used on the command line and in printed output.
    pub fn label(&self) -> (s: &'static str)
        ensures
            *self is Cluster ==> s@ == "cluster"@,
            *self is Uniform ==> s@ == "uniform"@,
    {
        match self {
            Type::Cluster => "cluster",
            Type::Uniform => "uniform",
        }
    }
}

impl Default for Type {
    fn default() -> (t: Type)
        ensures
            t is Cluster,
    {
        Type::Cluster
    }
}

/// Generator settings: the random seed, the point distribution, and how
/// many pairs to produce.
#[derive(Clone, Copy, PartialEq, Eq, Structural, Debug)]
pub struct Args {
    pub seed: u64,
    pub ty: Type,
    pub number: u64,
}

/// Marker for the pair generator; producing the pairs themselves is the
/// random-number layer's business, outside this crate.
pub struct Generator();

} // verus!
