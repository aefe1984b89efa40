//! Provenance of cost-model numbers.
use vstd::prelude::*;

verus! {

/// Where a number came from. `Unknown` means "show no number, offer a Measure button".
#[derive(Debug, Clone, Copy, PartialEq, Eq, Structural)]
pub enum Src {
    Measured,
    Derived,
    Estimate,
    Unknown,
}

/// Strength rank of a source: higher is weaker.
pub open spec fn rank(s: Src) -> nat {
    match s {
        Src::Measured => 0,
        Src::Derived => 1,
        Src::Estimate => 2,
        Src::Unknown => 3,
    }
}

impl Src {
    /// The weakest of two sources (a value derived from an estimate is an estimate).
    pub fn weakest(self, other: Src) -> (r: Src)
        ensures
            rank(r) == if rank(self) >= rank(other) { rank(self) } else { rank(other) },
            r == self || r == other,
    {
        match (self, other) {
            (Src::Unknown, _) | (_, Src::Unknown) => Src::Unknown,
            (Src::Estimate, _) | (_, Src::Estimate) => Src::Estimate,
            (Src::Derived, _) | (_, Src::Derived) => Src::Derived,
            _ => Src::Measured,
        }
    }
}

/// The weakest of two sources, as a function of the two.
pub open spec fn weakest_of(a: Src, b: Src) -> Src {
    if rank(a) >= rank(b) { a } else { b }
}

/// Combining sources does not depend on their order, nor on how they are grouped; a source
/// combined with itself is itself; `Unknown` absorbs everything and `Measured` changes nothing.
pub proof fn law_weakest_algebra(a: Src, b: Src, c: Src)
    ensures
        weakest_of(a, b) == weakest_of(b, a),
        weakest_of(weakest_of(a, b), c) == weakest_of(a, weakest_of(b, c)),
        weakest_of(a, a) == a,
        weakest_of(a, Src::Unknown) == Src::Unknown,
        weakest_of(a, Src::Measured) == a,
{
}

/// [`Src::weakest`] computes [`weakest_of`].
pub proof fn law_weakest_is_weakest_of(a: Src, b: Src, r: Src)
    requires
        rank(r) == if rank(a) >= rank(b) { rank(a) } else { rank(b) },
        r == a || r == b,
    ensures
        r == weakest_of(a, b),
{
}

/// What a plan puts on one device: the units' totals (from the layer config's stacks plus the
/// host's fixed units) and the KV bytes per context token held there.
#[derive(Debug, Clone)]
pub struct StackInput {
    pub device_id: String,
    pub is_host: bool,
    pub layer_start: u32,
    pub layer_end: u32,
    pub weight_bytes: u64,
    pub read_bytes_per_token: u64,
    pub flops_per_token: u64,
    pub kv_bytes_per_token: u64,
}

/// One request to cost.
#[derive(Debug, Clone, Copy)]
pub struct Request {
    pub prompt_tokens: u32,
    pub answer_tokens: u32,
    /// Activation bytes crossing a device boundary per token (n_embd × 4).
    pub activation_bytes: u64,
    /// llama-server micro-batch (default 512).
    pub ubatch: u32,
}

impl Default for Request {
    fn default() -> (r: Request)
        ensures
            r.prompt_tokens == 500,
            r.answer_tokens == 200,
            r.activation_bytes == 4096 * 4,
            r.ubatch == 512,
    {
        Request { prompt_tokens: 500, answer_tokens: 200, activation_bytes: 4096 * 4, ubatch: 512 }
    }
}

} // verus!
