//! A source of random words that keeps the record of what it drew: every
//! word it hands out is one fresh draw, appended to the record.
use vstd::prelude::*;

verus! {

/// Draws a word uniformly from `0..=mask` with the thread-local generator
/// of `rand::random_range`; the crate promises only that the value lies in
/// the range, and the value differs from call to call.
#[verifier::external_body]
fn random_word(mask: u64) -> (r: u64)
    ensures
        r <= mask,
{
    rand::random_range(0..=mask)
}

/// A random source with the record of the words it has drawn, in order.
pub struct Sampler {
    drawn: Ghost<Seq<u64>>,
}

impl Sampler {
    /// The words drawn so far, in order.
    pub closed spec fn log(&self) -> Seq<u64> {
        self.drawn@
    }

    /// A source that has drawn nothing.
    pub fn new() -> (s: Self)
        ensures
            s.log() == Seq::<u64>::empty(),
    {
        Sampler { drawn: Ghost(Seq::empty()) }
    }

    /// One fresh draw from `0..=mask`, recorded.
    pub fn word(&mut self, mask: u64) -> (r: u64)
        ensures
            r <= mask,
            final(self).log() == old(self).log().push(r),
    {
        let r = random_word(mask);
        self.drawn = Ghost(self.drawn@.push(r));
        r
    }
}

} // verus!
