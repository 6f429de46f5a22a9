//! Identifiers shared by the lobby server, the game server and the clients.

use vstd::prelude::*;

verus! {

/// Mask of the version and variant bits of a UUID held as a big-endian `u128`.
pub open spec fn uuid_v4_mask() -> u128 {
    0x0000_0000_0000_F000_C000_0000_0000_0000u128
}

/// Value of the version and variant bits of a random (version 4) UUID.
pub open spec fn uuid_v4_bits() -> u128 {
    0x0000_0000_0000_4000_8000_0000_0000_0000u128
}

/// A fresh random UUID, as its big-endian 128-bit value.
///
/// Calls `uuid::Uuid::new_v4` and `Uuid::as_u128`. The value is random; what
/// holds of every outcome is that the version nibble is 4 and the variant
/// bits are `10`, which `new_v4` sets by masking.
#[verifier::external_body]
fn random_uuid() -> (r: u128)
    ensures
        r & uuid_v4_mask() == uuid_v4_bits(),
{
    uuid::Uuid::new_v4().as_u128()
}

/// A player connected to the lobby server.
#[derive(Debug, Clone, Copy, PartialEq, Eq, Hash, Structural)]
pub struct PlayerId(pub u128);

impl PlayerId {
    /// A fresh random player id.
    pub fn new() -> (r: Self)
        ensures
            r.0 & uuid_v4_mask() == uuid_v4_bits(),
    {
        PlayerId(random_uuid())
    }
}

/// A lobby on the lobby server.
#[derive(Debug, Clone, Copy, PartialEq, Eq, Hash, Structural)]
pub struct LobbyId(pub u128);

impl LobbyId {
    /// A fresh random lobby id.
    pub fn new() -> (r: Self)
        ensures
            r.0 & uuid_v4_mask() == uuid_v4_bits(),
    {
        LobbyId(random_uuid())
    }
}

/// A team of a lobby or game, by its index.
#[derive(Debug, Clone, Copy, PartialEq, Eq, PartialOrd, Ord, Hash, Structural)]
pub struct Team(pub usize);

} // verus!
