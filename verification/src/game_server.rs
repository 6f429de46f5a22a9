//! What a game server decides for each player the lobby server sends it:
//! the client id that the player connects with, and which of the server's
//! addresses the player is given.

use vstd::prelude::*;
use crate::ids::PlayerId;
use crate::protocol::PlayerGameInfo;

verus! {

/// The first word of `uuid::Uuid::as_u64_pair` of the UUID with value `x`.
///
/// Calls `uuid::Uuid::from_u128` and `Uuid::as_u64_pair`. In the uuid
/// source, `from_u128` keeps the value's big-endian bytes, `as_u128` reads
/// them back, and `as_u64_pair` returns `((as_u128() >> 64) as u64, ..)`: the
/// first word is the high 64 bits of `x`.
#[verifier::external_body]
fn uuid_high_word(x: u128) -> (r: u64)
    ensures
        r == x >> 64,
{
    uuid::Uuid::from_u128(x).as_u64_pair().0
}

/// Which of the game server's addresses a player connects to.
#[derive(Debug, Clone, Copy, PartialEq, Eq, Structural)]
pub enum AddressKind {
    /// The server's IPv4 address on the local network.
    LocalIpv4,
    /// The server's public IPv4 address.
    PublicIpv4,
    /// The server's IPv6 address.
    Ipv6,
}

/// A player connecting from IPv4 gets the local or the public IPv4 address
/// of the server, by where the player is; any other player gets the IPv6
/// address.
pub fn address_kind(is_ipv4: bool, is_local: bool) -> (r: AddressKind)
    ensures
        r == if is_ipv4 {
            if is_local {
                AddressKind::LocalIpv4
            } else {
                AddressKind::PublicIpv4
            }
        } else {
            AddressKind::Ipv6
        },
{
    match (is_ipv4, is_local) {
        (true, true) => AddressKind::LocalIpv4,
        (true, false) => AddressKind::PublicIpv4,
        (false, _) => AddressKind::Ipv6,
    }
}

/// The id that a player's game client connects with: the high 64 bits of
/// the player's id.
pub fn client_id(id: PlayerId) -> (r: u64)
    ensures
        r == id.0 >> 64,
{
    uuid_high_word(id.0)
}

/// What the game server decides for one player.
#[derive(Debug, Clone, Copy, PartialEq, Eq, Structural)]
pub struct Admission {
    pub player: PlayerId,
    pub client_id: u64,
    pub address: AddressKind,
}

/// What the game server decides for a player.
pub open spec fn admission_of(p: PlayerGameInfo) -> Admission {
    Admission {
        player: p.id,
        client_id: (p.id.0 >> 64) as u64,
        address: if p.is_ipv4 {
            if p.is_local {
                AddressKind::LocalIpv4
            } else {
                AddressKind::PublicIpv4
            }
        } else {
            AddressKind::Ipv6
        },
    }
}

/// What the game server decides for each player, in order.
pub fn admissions(players: &Vec<PlayerGameInfo>) -> (r: Vec<Admission>)
    ensures
        r@.len() == players@.len(),
        forall|i: int| 0 <= i < players@.len() ==> #[trigger] r@[i] == admission_of(players@[i]),
{
    let mut r: Vec<Admission> = Vec::new();
    let mut i: usize = 0;
    while i < players.len()
        invariant
            i <= players@.len(),
            r@.len() == i,
            forall|j: int| 0 <= j < i ==> #[trigger] r@[j] == admission_of(players@[j]),
        decreases players.len() - i,
    {
        let p = &players[i];
        let id = client_id(p.id);
        proof {
            let x: u128 = p.id.0;
            assert(x >> 64 <= u64::MAX) by (bit_vector);
        }
        r.push(Admission { player: p.id, client_id: id, address: address_kind(p.is_ipv4, p.is_local) });
        i = i + 1;
    }
    r
}

} // verus!
