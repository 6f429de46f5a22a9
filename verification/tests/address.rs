use moba_lobby::address::{ipv4_is_global, ipv6_is_global, ipv6_is_ipv4_mapped, network_kind, PeerAddress};
use moba_lobby::client::handshake_id;
use moba_lobby::ids::PlayerId;
use moba_lobby::protocol::LobbyToClient;

/// An IPv4 address from its dotted form.
fn v4(s: &str) -> u32 {
    s.split('.').fold(0u32, |acc, part| (acc << 8) | part.parse::<u32>().unwrap())
}

/// An IPv6 address from its colon form (with at most one `::`, and an
/// optional dotted IPv4 tail).
fn v6(s: &str) -> u128 {
    let mut groups: Vec<Vec<u16>> = Vec::new();
    for half in s.split("::") {
        let mut g = Vec::new();
        for part in half.split(':').filter(|p| !p.is_empty()) {
            if part.contains('.') {
                let x = v4(part);
                g.push((x >> 16) as u16);
                g.push(x as u16);
            } else {
                g.push(u16::from_str_radix(part, 16).unwrap());
            }
        }
        groups.push(g);
    }
    let mut all: Vec<u16> = groups[0].clone();
    if groups.len() == 2 {
        let fill = 8 - groups[0].len() - groups[1].len();
        all.extend(std::iter::repeat(0).take(fill));
        all.extend(groups[1].iter());
    }
    assert_eq!(all.len(), 8, "{s}");
    all.iter().fold(0u128, |acc, &g| (acc << 16) | g as u128)
}

#[test]
fn ipv4_addresses() {
    for a in ["8.8.8.8", "1.1.1.1", "192.0.0.9", "192.0.0.10", "172.32.0.1", "100.128.0.1", "223.255.255.255"] {
        assert!(ipv4_is_global(v4(a)), "{a}");
    }
    for a in [
        "0.0.0.0", "0.1.2.3", "10.1.2.3", "172.16.0.1", "172.31.255.255", "192.168.1.1", "100.64.0.1", "127.0.0.1",
        "169.254.1.1", "192.0.0.1", "192.0.2.7", "198.51.100.1", "203.0.113.9", "198.18.0.1", "198.19.255.255",
        "240.0.0.1", "255.255.255.255",
    ] {
        assert!(!ipv4_is_global(v4(a)), "{a}");
    }
}

#[test]
fn ipv6_addresses() {
    for a in ["2606:4700::1111", "2001:4860:4860::8888", "2001:1::1", "2001:3::1", "2001:20::1", "2001:200::1"] {
        assert!(ipv6_is_global(v6(a)), "{a}");
    }
    for a in [
        "::", "::1", "::ffff:8.8.8.8", "64:ff9b:1::1", "100::1", "2001::1", "2001:1::3", "2002::1", "2001:db8::1",
        "3fff::1", "5f00::1", "fc00::1", "fd12::1", "fe80::1", "febf::1",
    ] {
        assert!(!ipv6_is_global(v6(a)), "{a}");
    }
    assert!(ipv6_is_ipv4_mapped(v6("::ffff:1.2.3.4")));
    assert!(!ipv6_is_ipv4_mapped(v6("::1.2.3.4")));
}

#[test]
fn where_players_connect_from() {
    assert_eq!(network_kind(PeerAddress::V4(v4("8.8.8.8"))), (true, false));
    assert_eq!(network_kind(PeerAddress::V4(v4("192.168.0.2"))), (true, true));
    assert_eq!(network_kind(PeerAddress::V6(v6("::ffff:8.8.8.8"))), (true, false));
    assert_eq!(network_kind(PeerAddress::V6(v6("::ffff:10.0.0.1"))), (true, true));
    assert_eq!(network_kind(PeerAddress::V6(v6("2606:4700::1111"))), (false, false));
    assert_eq!(network_kind(PeerAddress::V6(v6("fe80::1"))), (false, true));
}

#[test]
fn the_handshake_answer_names_the_player() {
    assert_eq!(handshake_id(&LobbyToClient::Handshake { id: PlayerId(5) }), Some(PlayerId(5)));
    assert_eq!(handshake_id(&LobbyToClient::YouLeftLobby), None);
}
