//! Where a player connects from: whether the address is IPv4 (or IPv4
//! mapped into IPv6), and whether it is local, that is not globally
//! reachable. Addresses are held as their numbers, most significant bits
//! first (`u32` for IPv4, `u128` for IPv6).
//!
//! The blocks that are not globally reachable are those of the IANA IPv4
//! and IPv6 Special-Purpose Address Registries that std's `is_global`
//! documentation refers to.

use vstd::prelude::*;

verus! {

/// Whether `a` is in the IPv4 block `p/len`.
pub open spec fn in_block4(a: u32, p: u32, len: u32) -> bool {
    a >> ((32 - len) as u32) == p >> ((32 - len) as u32)
}

/// Whether `a` is in the IPv6 block `p/len`.
pub open spec fn in_block6(a: u128, p: u128, len: u32) -> bool {
    a >> ((128 - len) as u32) == p >> ((128 - len) as u32)
}

/// Whether an IPv4 address is globally reachable: it is in none of the
/// blocks "this network" (`0.0.0.0/8`), private use (`10.0.0.0/8`,
/// `172.16.0.0/12`, `192.168.0.0/16`), shared (`100.64.0.0/10`), loopback
/// (`127.0.0.0/8`), link local (`169.254.0.0/16`), protocol assignments
/// (`192.0.0.0/24`, except `192.0.0.9` and `192.0.0.10`), documentation
/// (`192.0.2.0/24`, `198.51.100.0/24`, `203.0.113.0/24`), benchmarking
/// (`198.18.0.0/15`), reserved (`240.0.0.0/4`) and broadcast.
pub open spec fn ipv4_global(a: u32) -> bool {
    !(in_block4(a, 0x0000_0000, 8)
        || in_block4(a, 0x0a00_0000, 8)
        || in_block4(a, 0xac10_0000, 12)
        || in_block4(a, 0xc0a8_0000, 16)
        || in_block4(a, 0x6440_0000, 10)
        || in_block4(a, 0x7f00_0000, 8)
        || in_block4(a, 0xa9fe_0000, 16)
        || (in_block4(a, 0xc000_0000, 24) && a != 0xc000_0009 && a != 0xc000_000a)
        || in_block4(a, 0xc000_0200, 24)
        || in_block4(a, 0xc633_6400, 24)
        || in_block4(a, 0xcb00_7100, 24)
        || in_block4(a, 0xc612_0000, 15)
        || in_block4(a, 0xf000_0000, 4))
}

/// Whether an IPv6 address is an IPv4 address mapped into IPv6 (`::ffff:0:0/96`).
pub open spec fn ipv4_mapped(a: u128) -> bool {
    in_block6(a, 0xffff_0000_0000, 96)
}

/// Whether an IPv6 address is globally reachable: it is not the unspecified
/// or the loopback address, and it is in none of the blocks IPv4-mapped
/// (`::ffff:0:0/96`), IPv4-IPv6 translation (`64:ff9b:1::/48`), discard-only
/// (`100::/64`), IETF protocol assignments (`2001::/23`, except the anycast
/// addresses `2001:1::1` and `2001:1::2`, and the blocks `2001:3::/32`,
/// `2001:4:112::/48` and `2001:20::/27`), 6to4 (`2002::/16`), documentation
/// (`2001:db8::/32`, `3fff::/20`), segment routing (`5f00::/16`), unique
/// local (`fc00::/7`) and link local (`fe80::/10`).
pub open spec fn ipv6_global(a: u128) -> bool {
    !(a == 0 || a == 1
        || in_block6(a, 0xffff_0000_0000, 96)
        || in_block6(a, 0x0064_ff9b_0001_0000_0000_0000_0000_0000, 48)
        || in_block6(a, 0x0100_0000_0000_0000_0000_0000_0000_0000, 64)
        || (in_block6(a, 0x2001_0000_0000_0000_0000_0000_0000_0000, 23)
            && !(a == 0x2001_0001_0000_0000_0000_0000_0000_0001
                || a == 0x2001_0001_0000_0000_0000_0000_0000_0002
                || in_block6(a, 0x2001_0003_0000_0000_0000_0000_0000_0000, 32)
                || in_block6(a, 0x2001_0004_0112_0000_0000_0000_0000_0000, 48)
                || in_block6(a, 0x2001_0020_0000_0000_0000_0000_0000_0000, 27)))
        || in_block6(a, 0x2002_0000_0000_0000_0000_0000_0000_0000, 16)
        || in_block6(a, 0x2001_0db8_0000_0000_0000_0000_0000_0000, 32)
        || in_block6(a, 0x3fff_0000_0000_0000_0000_0000_0000_0000, 20)
        || in_block6(a, 0x5f00_0000_0000_0000_0000_0000_0000_0000, 16)
        || in_block6(a, 0xfc00_0000_0000_0000_0000_0000_0000_0000, 7)
        || in_block6(a, 0xfe80_0000_0000_0000_0000_0000_0000_0000, 10))
}

/// The IPv4 addresses that are not globally reachable are local: "this
/// network" `0.0.0.0/8`, the private `10.0.0.0/8`, `172.16.0.0/12` and
/// `192.168.0.0/16`, shared `100.64.0.0/10`, loopback `127.0.0.0/8`, link
/// local `169.254.0.0/16`, documentation `192.0.2.0/24`, `198.51.100.0/24`
/// and `203.0.113.0/24`, benchmarking `198.18.0.0/15`, and reserved
/// `240.0.0.0/4` (broadcast included). A player there is IPv4 and local.
pub proof fn lemma_ipv4_local_blocks(a: u32)
    ensures
        a >> 24u32 == 0 ==> network_of(PeerAddress::V4(a)) == (true, true),
        a >> 24u32 == 10 ==> network_of(PeerAddress::V4(a)) == (true, true),
        a >> 20u32 == 0xac1 ==> network_of(PeerAddress::V4(a)) == (true, true),
        a >> 16u32 == 0xc0a8 ==> network_of(PeerAddress::V4(a)) == (true, true),
        a >> 22u32 == 0x191 ==> network_of(PeerAddress::V4(a)) == (true, true),
        a >> 24u32 == 127 ==> network_of(PeerAddress::V4(a)) == (true, true),
        a >> 16u32 == 0xa9fe ==> network_of(PeerAddress::V4(a)) == (true, true),
        a >> 8u32 == 0xc00002 ==> network_of(PeerAddress::V4(a)) == (true, true),
        a >> 8u32 == 0xc63364 ==> network_of(PeerAddress::V4(a)) == (true, true),
        a >> 8u32 == 0xcb0071 ==> network_of(PeerAddress::V4(a)) == (true, true),
        a >> 17u32 == 0x6309 ==> network_of(PeerAddress::V4(a)) == (true, true),
        a >> 28u32 == 0xf ==> network_of(PeerAddress::V4(a)) == (true, true),
{
    assert(a >> 24u32 == 0 ==> in_block4(a, 0x0000_0000, 8)) by (bit_vector);
    assert(a >> 24u32 == 10 ==> in_block4(a, 0x0a00_0000, 8)) by (bit_vector);
    assert(a >> 20u32 == 0xac1 ==> in_block4(a, 0xac10_0000, 12)) by (bit_vector);
    assert(a >> 16u32 == 0xc0a8 ==> in_block4(a, 0xc0a8_0000, 16)) by (bit_vector);
    assert(a >> 22u32 == 0x191 ==> in_block4(a, 0x6440_0000, 10)) by (bit_vector);
    assert(a >> 24u32 == 127 ==> in_block4(a, 0x7f00_0000, 8)) by (bit_vector);
    assert(a >> 16u32 == 0xa9fe ==> in_block4(a, 0xa9fe_0000, 16)) by (bit_vector);
    assert(a >> 8u32 == 0xc00002 ==> in_block4(a, 0xc000_0200, 24)) by (bit_vector);
    assert(a >> 8u32 == 0xc63364 ==> in_block4(a, 0xc633_6400, 24)) by (bit_vector);
    assert(a >> 8u32 == 0xcb0071 ==> in_block4(a, 0xcb00_7100, 24)) by (bit_vector);
    assert(a >> 17u32 == 0x6309 ==> in_block4(a, 0xc612_0000, 15)) by (bit_vector);
    assert(a >> 28u32 == 0xf ==> in_block4(a, 0xf000_0000, 4)) by (bit_vector);
}

/// The IPv6 unspecified and loopback addresses, unique local `fc00::/7`,
/// link local `fe80::/10` and documentation `2001:db8::/32` addresses are
/// local; an IPv4 address mapped into IPv6 (`::ffff:a.b.c.d`) counts as IPv4
/// and is local exactly when the IPv4 address it maps is.
pub proof fn lemma_ipv6_local_blocks(a: u128)
    ensures
        (a == 0 || a == 1) ==> network_of(PeerAddress::V6(a)).1,
        a >> 121u32 == 0x7e ==> network_of(PeerAddress::V6(a)).1,
        a >> 118u32 == 0x3fa ==> network_of(PeerAddress::V6(a)).1,
        a >> 96u32 == 0x2001_0db8 ==> network_of(PeerAddress::V6(a)).1,
        a >> 32u32 == 0xffff ==> network_of(PeerAddress::V6(a)) == (true, network_of(PeerAddress::V4(a as u32)).1),
        a >> 32u32 != 0xffff ==> !network_of(PeerAddress::V6(a)).0,
{
    assert(a >> 121u32 == 0x7e ==> in_block6(a, 0xfc00_0000_0000_0000_0000_0000_0000_0000, 7)) by (bit_vector);
    assert(a >> 118u32 == 0x3fa ==> in_block6(a, 0xfe80_0000_0000_0000_0000_0000_0000_0000, 10)) by (bit_vector);
    assert(a >> 96u32 == 0x2001_0db8 ==> in_block6(a, 0x2001_0db8_0000_0000_0000_0000_0000_0000, 32)) by (bit_vector);
    assert(a >> 32u32 == 0xffff <==> in_block6(a, 0xffff_0000_0000, 96)) by (bit_vector);
    assert((a == 0 || a == 1) ==> a >> 32u32 != 0xffff) by (bit_vector);
    assert(a >> 121u32 == 0x7e ==> a >> 32u32 != 0xffff) by (bit_vector);
    assert(a >> 118u32 == 0x3fa ==> a >> 32u32 != 0xffff) by (bit_vector);
    assert(a >> 96u32 == 0x2001_0db8 ==> a >> 32u32 != 0xffff) by (bit_vector);
}

/// Outside those blocks, addresses are global: an IPv4 address whose first
/// octet is 1–9, 11–99, 101–126, 128–168, 170–171, 173–191, 193–197, 199–202
/// or 204–239 is IPv4 and not local; an IPv6 address whose first 16 bits
/// are 0x2400 to 0x3ffe is neither IPv4 nor local.
pub proof fn lemma_global_addresses(a: u32, b: u128)
    ensures
        ({
            let o = a >> 24u32;
            1 <= o <= 9 || 11 <= o <= 99 || 101 <= o <= 126 || 128 <= o <= 168 || 170 <= o <= 171 || 173 <= o <= 191
                || 193 <= o <= 197 || 199 <= o <= 202 || 204 <= o <= 239
        }) ==> network_of(PeerAddress::V4(a)) == (true, false),
        0x2400 <= b >> 112u32 <= 0x3ffe ==> network_of(PeerAddress::V6(b)) == (false, false),
{
    assert(({
        let o = a >> 24u32;
        1 <= o <= 9 || 11 <= o <= 99 || 101 <= o <= 126 || 128 <= o <= 168 || 170 <= o <= 171 || 173 <= o <= 191
            || 193 <= o <= 197 || 199 <= o <= 202 || 204 <= o <= 239
    }) ==> ipv4_global(a)) by (bit_vector);
    assert(0x2400 <= b >> 112u32 <= 0x3ffe ==> ipv6_global(b) && !ipv4_mapped(b)) by (bit_vector);
}

/// The address a player connects from.
#[derive(Debug, Clone, Copy, PartialEq, Eq, Structural)]
pub enum PeerAddress {
    V4(u32),
    V6(u128),
}

/// Whether a player's address is IPv4 (or IPv4 mapped into IPv6), and
/// whether it is local: an IPv4 address that is not globally reachable, or
/// an IPv6 address that is not, and that does not map an IPv4 address that is.
pub open spec fn network_of(addr: PeerAddress) -> (bool, bool) {
    match addr {
        PeerAddress::V4(a) => (true, !ipv4_global(a)),
        PeerAddress::V6(a) => (
            ipv4_mapped(a),
            !(ipv6_global(a) || (ipv4_mapped(a) && ipv4_global(a as u32))),
        ),
    }
}

fn block4(a: u32, p: u32, len: u32) -> (r: bool)
    requires
        1 <= len <= 32,
    ensures
        r == in_block4(a, p, len),
{
    a >> (32 - len) == p >> (32 - len)
}

fn block6(a: u128, p: u128, len: u32) -> (r: bool)
    requires
        1 <= len <= 128,
    ensures
        r == in_block6(a, p, len),
{
    a >> (128 - len) == p >> (128 - len)
}

/// Whether an IPv4 address is globally reachable.
pub fn ipv4_is_global(a: u32) -> (r: bool)
    ensures
        r == ipv4_global(a),
{
    !(block4(a, 0x0000_0000, 8)
        || block4(a, 0x0a00_0000, 8)
        || block4(a, 0xac10_0000, 12)
        || block4(a, 0xc0a8_0000, 16)
        || block4(a, 0x6440_0000, 10)
        || block4(a, 0x7f00_0000, 8)
        || block4(a, 0xa9fe_0000, 16)
        || (block4(a, 0xc000_0000, 24) && a != 0xc000_0009 && a != 0xc000_000a)
        || block4(a, 0xc000_0200, 24)
        || block4(a, 0xc633_6400, 24)
        || block4(a, 0xcb00_7100, 24)
        || block4(a, 0xc612_0000, 15)
        || block4(a, 0xf000_0000, 4))
}

/// Whether an IPv6 address maps an IPv4 address.
pub fn ipv6_is_ipv4_mapped(a: u128) -> (r: bool)
    ensures
        r == ipv4_mapped(a),
{
    block6(a, 0xffff_0000_0000, 96)
}

/// Whether an IPv6 address is globally reachable.
pub fn ipv6_is_global(a: u128) -> (r: bool)
    ensures
        r == ipv6_global(a),
{
    !(a == 0 || a == 1
        || block6(a, 0xffff_0000_0000, 96)
        || block6(a, 0x0064_ff9b_0001_0000_0000_0000_0000_0000, 48)
        || block6(a, 0x0100_0000_0000_0000_0000_0000_0000_0000, 64)
        || (block6(a, 0x2001_0000_0000_0000_0000_0000_0000_0000, 23)
            && !(a == 0x2001_0001_0000_0000_0000_0000_0000_0001
                || a == 0x2001_0001_0000_0000_0000_0000_0000_0002
                || block6(a, 0x2001_0003_0000_0000_0000_0000_0000_0000, 32)
                || block6(a, 0x2001_0004_0112_0000_0000_0000_0000_0000, 48)
                || block6(a, 0x2001_0020_0000_0000_0000_0000_0000_0000, 27)))
        || block6(a, 0x2002_0000_0000_0000_0000_0000_0000_0000, 16)
        || block6(a, 0x2001_0db8_0000_0000_0000_0000_0000_0000, 32)
        || block6(a, 0x3fff_0000_0000_0000_0000_0000_0000_0000, 20)
        || block6(a, 0x5f00_0000_0000_0000_0000_0000_0000_0000, 16)
        || block6(a, 0xfc00_0000_0000_0000_0000_0000_0000_0000, 7)
        || block6(a, 0xfe80_0000_0000_0000_0000_0000_0000_0000, 10))
}

/// Whether a player's address is IPv4, and whether it is local.
pub fn network_kind(addr: PeerAddress) -> (r: (bool, bool))
    ensures
        r == network_of(addr),
{
    match addr {
        PeerAddress::V4(a) => (true, !ipv4_is_global(a)),
        PeerAddress::V6(a) => {
            let mapped = ipv6_is_ipv4_mapped(a);
            let global = ipv6_is_global(a) || (mapped && ipv4_is_global(a as u32));
            (mapped, !global)
        },
    }
}

} // verus!
