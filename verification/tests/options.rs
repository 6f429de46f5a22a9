use moba_lobby::options::{LaunchMode, OptionsBuilder, OptionsError, PortRange, PortRangeError};

fn builder() -> OptionsBuilder {
    OptionsBuilder {
        certificate: None,
        privkey: None,
        internal_ports: None,
        external_ports: None,
        public_ipv4_address: None,
        local_ipv4_address: None,
        ipv6_address: None,
        launch_mode: None,
    }
}

#[test]
fn a_single_port() {
    assert_eq!(PortRange::parse("4545"), Ok(PortRange { first: 4545, last: 4545 }));
    assert_eq!(PortRange::parse("+80"), Ok(PortRange { first: 80, last: 80 }));
    assert_eq!(PortRange::parse("0065535"), Ok(PortRange { first: 65535, last: 65535 }));
}

#[test]
fn a_port_range() {
    assert_eq!(PortRange::parse("4545-4555"), Ok(PortRange { first: 4545, last: 4555 }));
    assert_eq!(PortRange::parse("10-3"), Ok(PortRange { first: 10, last: 3 }));
    assert_eq!("20000-21000".parse::<PortRange>(), Ok(PortRange { first: 20000, last: 21000 }));
}

#[test]
fn malformed_ports_are_refused() {
    for s in ["", "+", "-", "abc", "65536", "4545-", "-4545", "1-2-3", " 80", "80 ", "12a", "1_000", "٣"] {
        assert_eq!(PortRange::parse(s), Err(PortRangeError), "{s:?}");
    }
}

#[test]
fn the_parser_agrees_with_std_on_single_ports() {
    for s in ["0", "7", "+7", "65535", "65536", "00", "-0", "+-1", "99999999999"] {
        let ours = PortRange::parse(s).ok().map(|r| r.first);
        assert_eq!(ours, s.parse::<u16>().ok(), "{s:?}");
    }
}

#[test]
fn applied_options_take_precedence() {
    let mut a = builder();
    a.internal_ports = Some(PortRange { first: 1, last: 2 });
    a.public_ipv4_address = Some(1);
    a.launch_mode = Some(LaunchMode::Cargo);
    let mut b = builder();
    b.public_ipv4_address = Some(2);
    b.ipv6_address = Some(3);
    b.certificate = Some("cert.pem".to_string());
    a.apply(b);
    assert_eq!(a.internal_ports, Some(PortRange { first: 1, last: 2 }));
    assert_eq!(a.public_ipv4_address, Some(2));
    assert_eq!(a.ipv6_address, Some(3));
    assert_eq!(a.launch_mode, Some(LaunchMode::Cargo));
    assert_eq!(a.certificate.as_deref(), Some("cert.pem"));
    assert_eq!(a.privkey, None);
}

#[test]
fn building_needs_the_addresses() {
    assert_eq!(builder().build().err(), Some(OptionsError::MissingPublicIpv4));
    let mut b = builder();
    b.public_ipv4_address = Some(1);
    assert_eq!(b.build().err(), Some(OptionsError::MissingLocalIpv4));
    let mut b = builder();
    b.public_ipv4_address = Some(1);
    b.local_ipv4_address = Some(2);
    assert_eq!(b.build().err(), Some(OptionsError::MissingIpv6));
}

#[test]
fn building_fills_in_the_defaults() {
    let mut b = builder();
    b.public_ipv4_address = Some(1);
    b.local_ipv4_address = Some(2);
    b.ipv6_address = Some(3);
    let o = b.build().expect("all addresses given");
    assert_eq!(o.internal_ports, PortRange { first: 20000, last: 21000 });
    assert_eq!(o.external_ports, PortRange { first: 54000, last: 55000 });
    assert_eq!(o.launch_mode, LaunchMode::Executable);
    assert_eq!(LaunchMode::default(), LaunchMode::Executable);
    assert_eq!((o.public_ipv4_address, o.local_ipv4_address, o.ipv6_address), (1, 2, 3));
}
