use moba_lobby::champions::{ChampList, ChampionDef, ChampionId, MapId};
use moba_lobby::game_server::{address_kind, admissions, client_id, AddressKind};
use moba_lobby::ids::{PlayerId, Team};
use moba_lobby::names::{contains_name, numbered_name, push_decimal, unused_name_for};
use moba_lobby::protocol::PlayerGameInfo;

#[test]
fn example_definitions() {
    let c = ChampionDef::example();
    assert_eq!(c.id.0, "example_champion");
    assert_eq!(c.name, "Example Champion");
    assert_eq!(c.icon, "champs/unknown.png");
    assert_eq!(ChampList::example().0, vec!["champ1".to_string()]);
}

#[test]
fn definition_paths() {
    assert_eq!(ChampionId("champ1".to_string()).def_path(), "champs/champ1/def.ron");
    assert_eq!(MapId("default".to_string()).def_path(), "maps/default/def.ron");
}

#[test]
fn numbered_names() {
    let mut s = String::from("x");
    push_decimal(&mut s, 1024);
    assert_eq!(s, "x1024");
    assert_eq!(numbered_name(&"bob".to_string(), 12), "bob 12");
    let names = vec!["bob".to_string(), "bob 2".to_string(), "bob 4".to_string()];
    assert!(contains_name(&names, &"bob 2".to_string()));
    assert!(!contains_name(&names, &"bob 3".to_string()));
    assert_eq!(unused_name_for(&names, &"bob".to_string()), "bob 3");
    assert_eq!(unused_name_for(&names, &"eve".to_string()), "eve");
    assert_eq!(unused_name_for(&vec![], &"".to_string()), "");
}

#[test]
fn players_get_the_address_of_their_network() {
    assert_eq!(address_kind(true, true), AddressKind::LocalIpv4);
    assert_eq!(address_kind(true, false), AddressKind::PublicIpv4);
    assert_eq!(address_kind(false, true), AddressKind::Ipv6);
    assert_eq!(address_kind(false, false), AddressKind::Ipv6);
}

#[test]
fn the_client_id_is_the_high_word_of_the_player_id() {
    let x = 0x0123_4567_89ab_cdef_fedc_ba98_7654_3210u128;
    assert_eq!(client_id(PlayerId(x)), 0x0123_4567_89ab_cdef);
    assert_eq!(client_id(PlayerId(x)), uuid::Uuid::from_u128(x).as_u64_pair().0);
    assert_eq!(client_id(PlayerId(7)), 0);
}

#[test]
fn admissions_follow_the_players() {
    let players = vec![
        PlayerGameInfo {
            id: PlayerId(1 << 64),
            name: "a".to_string(),
            team: Team(0),
            champ: ChampionId("c".to_string()),
            is_ipv4: true,
            is_local: false,
        },
        PlayerGameInfo {
            id: PlayerId(2 << 64),
            name: "b".to_string(),
            team: Team(1),
            champ: ChampionId("c".to_string()),
            is_ipv4: false,
            is_local: true,
        },
    ];
    let a = admissions(&players);
    assert_eq!(a.len(), 2);
    assert_eq!((a[0].player, a[0].client_id, a[0].address), (PlayerId(1 << 64), 1, AddressKind::PublicIpv4));
    assert_eq!((a[1].player, a[1].client_id, a[1].address), (PlayerId(2 << 64), 2, AddressKind::Ipv6));
}
