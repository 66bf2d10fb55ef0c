//! Small helpers.
use rand::{distributions::Alphanumeric, Rng};
use vstd::prelude::*;

verus! {

/// Whether a character is an ASCII letter or digit.
pub open spec fn is_alphanumeric(c: char) -> bool {
    ('0' <= c && c <= '9') || ('a' <= c && c <= 'z') || ('A' <= c && c <= 'Z')
}

/// `rand::thread_rng` and `Rng::sample_iter` over `Alphanumeric`: a random
/// id of `length` characters, each an ASCII letter or digit.
#[verifier::external_body]
pub fn generate_random_id(length: usize) -> (id: String)
    ensures
        id@.len() == length,
        forall|i: int| 0 <= i < id@.len() ==> is_alphanumeric(#[trigger] id@[i]),
{
    let rng = rand::thread_rng();
    let id: String = rng.sample_iter(&Alphanumeric).take(length).map(char::from).collect();
    id
}

} // verus!
