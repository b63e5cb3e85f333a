//! The one random choice of the resolver, made by the `rand` crate.

use vstd::prelude::*;
use rand::seq::SliceRandom;
use crate::address::Ipv4Address;

verus! {

/// Picks one of the addresses with `SliceRandom::choose` of `rand`, each
/// with the same chance. All that is known of the outcome is that it is one
/// of them, and that there is one unless there are none.
#[verifier::external_body]
pub(crate) fn choose_address(addresses: &Vec<Ipv4Address>) -> (r: Option<Ipv4Address>)
    ensures
        match r {
            Some(a) => addresses@.contains(a),
            None => addresses@.len() == 0,
        },
{
    addresses.choose(&mut rand::thread_rng()).copied()
}

} // verus!
