//! Local sequence numbers for slice writers and slice readers.
use vstd::prelude::*;
use sonyflake::Sonyflake;

verus! {

#[verifier::external_type_specification]
#[verifier::external_body]
pub struct ExSonyflake(Sonyflake);

/// `Sonyflake::next_id`: the generator's next id, or nothing when the
/// generator fails. The id depends on the clock, so nothing is claimed of it.
#[verifier::external_body]
pub(crate) fn next_seq(generator: &Sonyflake) -> (id: Option<u64>) {
    generator.next_id().ok()
}

} // verus!
