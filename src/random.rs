//! Where the sampler's random choices come from.
use rand::rngs::ThreadRng;
use rand::Rng;
use vstd::prelude::*;

verus! {

/// A source of uniformly distributed integers. The sampler makes every
/// random choice through it, so a scripted source can replay a given run.
pub trait RandomSource {
    /// An integer drawn uniformly from `[0, bound)`.
    fn below_u64(&mut self, bound: u64) -> (r: u64)
        requires
            bound > 0,
        ensures
            r < bound,
    ;

    /// An integer drawn uniformly from `[0, bound)`.
    fn below_u32(&mut self, bound: u32) -> (r: u32)
        requires
            bound > 0,
        ensures
            r < bound,
    ;
}

#[verifier::external_type_specification]
#[verifier::external_body]
pub struct ExThreadRng(ThreadRng);

/// Relies on `rand::thread_rng`: a handle to the generator of the calling thread.
#[verifier::external_body]
fn thread_generator() -> ThreadRng {
    rand::thread_rng()
}

/// Relies on `Rng::gen_range`: a value uniformly drawn from the half-open
/// range, which must not be empty (it panics on an empty range).
#[verifier::external_body]
fn gen_below(rng: &mut ThreadRng, bound: u64) -> (r: u64)
    requires
        bound > 0,
    ensures
        r < bound,
{
    rng.gen_range(0..bound)
}

/// The generator of the calling thread, seeded by the operating system.
pub struct ThreadSource {
    rng: ThreadRng,
}

impl ThreadSource {
    pub fn new() -> Self {
        ThreadSource { rng: thread_generator() }
    }
}

impl RandomSource for ThreadSource {
    fn below_u64(&mut self, bound: u64) -> (r: u64) {
        gen_below(&mut self.rng, bound)
    }

    fn below_u32(&mut self, bound: u32) -> (r: u32) {
        gen_below(&mut self.rng, bound as u64) as u32
    }
}

} // verus!
