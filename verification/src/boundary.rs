//! Boundary generation: the policy that gives a form its boundary, and the
//! default policy, which draws it at random. Verus does not read the `rand`
//! crate; what this module says of it is taken on trust.

use rand::distributions::Alphanumeric;
use rand::rngs::ThreadRng;
use rand::Rng;
use vstd::prelude::*;

verus! {

/// A policy that makes the boundary of a form. A form asks its generator
/// once, when it is created.
pub trait BoundaryGenerator {
    /// Whether the generator may hand out `boundary`. By default any string.
    open spec fn may_generate(&self, boundary: Seq<char>) -> bool {
        true
    }

    /// Generates a string to use as a boundary.
    fn generate_boundary(&self) -> (boundary: String)
        ensures
            self.may_generate(boundary@),
    ;
}

/// The number of characters in a boundary drawn at random.
pub const RANDOM_BOUNDARY_LEN: usize = 6;

/// Whether `c` is an ASCII letter or digit.
pub open spec fn is_alphanumeric(c: char) -> bool {
    ('0' <= c && c <= '9') || ('A' <= c && c <= 'Z') || ('a' <= c && c <= 'z')
}

/// Whether `boundary` could have been drawn at random: six characters, each
/// an ASCII letter or digit.
pub open spec fn is_random_boundary(boundary: Seq<char>) -> bool {
    &&& boundary.len() == RANDOM_BOUNDARY_LEN
    &&& forall|i: int| 0 <= i < boundary.len() ==> is_alphanumeric(#[trigger] boundary[i])
}

/// `rand::rngs::ThreadRng`: the random number generator of a thread.
#[verifier::external_type_specification]
#[verifier::external_body]
pub struct ExThreadRng(rand::rngs::ThreadRng);

/// `rand::thread_rng` hands out the random number generator of the calling
/// thread. Nothing is known of what it will draw. It panics where the
/// operating system has no randomness to seed the generator with, which
/// nothing that a caller hands in decides.
pub assume_specification[ rand::thread_rng ]() -> (rng: ThreadRng)
;

/// `Rng::sample` with the `Alphanumeric` distribution: one byte drawn from
/// the ASCII letters and digits. Which one depends on chance. It panics
/// where the generator is due for new seed and the operating system has
/// none to give, which nothing that a caller hands in decides.
#[verifier::external_body]
fn sample_alphanumeric(rng: &mut ThreadRng) -> (byte: u8)
    ensures
        is_alphanumeric(byte as char),
{
    rng.sample(Alphanumeric)
}

/// `String::push` appends one character.
#[verifier::external_body]
fn push_char(text: &mut String, c: char)
    ensures
        final(text)@ == old(text)@.push(c),
{
    text.push(c)
}

/// The boundary that is made of the bytes drawn: each byte as a character,
/// in the order in which they were drawn.
pub fn boundary_from(draws: &[u8]) -> (boundary: String)
    ensures
        boundary@ == draws@.map_values(|byte: u8| byte as char),
{
    let mut boundary = String::new();
    let mut taken: usize = 0;
    while taken < draws.len()
        invariant
            taken <= draws@.len(),
            boundary@ == draws@.take(taken as int).map_values(|byte: u8| byte as char),
        decreases draws@.len() - taken,
    {
        push_char(&mut boundary, draws[taken] as char);
        assert(draws@.take(taken + 1).map_values(|byte: u8| byte as char) =~= draws@.take(
            taken as int,
        ).map_values(|byte: u8| byte as char).push(draws@[taken as int] as char));
        taken += 1;
    }
    assert(draws@.take(taken as int) =~= draws@);
    boundary
}

/// The default policy: a boundary of six ASCII letters and digits, each
/// drawn at random.
pub struct RandomAsciiGenerator;

impl BoundaryGenerator for RandomAsciiGenerator {
    open spec fn may_generate(&self, boundary: Seq<char>) -> bool {
        is_random_boundary(boundary)
    }

    /// Creates a boundary of 6 ASCII characters: draws six bytes and makes
    /// the boundary of them.
    fn generate_boundary(&self) -> (boundary: String) {
        let mut rng = rand::thread_rng();
        let mut draws: Vec<u8> = Vec::new();
        while draws.len() < RANDOM_BOUNDARY_LEN
            invariant
                draws@.len() <= RANDOM_BOUNDARY_LEN,
                forall|i: int| 0 <= i < draws@.len() ==> is_alphanumeric(#[trigger] draws@[i] as char),
            decreases RANDOM_BOUNDARY_LEN - draws@.len(),
        {
            let byte = sample_alphanumeric(&mut rng);
            draws.push(byte);
        }
        boundary_from(draws.as_slice())
    }
}

} // verus!
