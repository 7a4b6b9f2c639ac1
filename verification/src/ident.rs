//! Where order identifiers come from.

use crate::order::OrderId;
use vstd::prelude::*;

verus! {

/// The bits of a UUID that tell its version and variant.
pub const UUID_KIND_MASK: u128 = 0x0000_0000_0000_f000_c000_0000_0000_0000;

/// The version and variant bits of a random (version 4) UUID.
pub const UUID_KIND_RANDOM: u128 = 0x0000_0000_0000_4000_8000_0000_0000_0000;

/// Draws a random identifier.
///
/// Trusted: the body calls `uuid::Uuid::new_v4`, which reads the operating
/// system's random source (and gives up where that source fails), and hands
/// back the UUID's 128 bits as `uuid::Uuid::as_u128` packs them. The
/// contract claims only what holds of every draw: the bits that mark the
/// UUID as a random one of the standard layout. Nothing is claimed of the
/// other bits; two draws may well be equal.
#[verifier::external_body]
pub(crate) fn random_id() -> (id: OrderId)
    ensures
        id.value & UUID_KIND_MASK == UUID_KIND_RANDOM,
{
    OrderId { value: uuid::Uuid::new_v4().as_u128() }
}

} // verus!
