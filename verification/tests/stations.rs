use n1mm_bridge::config::Config;
use n1mm_bridge::discovery::{
    address, announce_address, contact_address, hear_announce, parse_announce, parse_port, subnet_broadcast,
    udp_announce, ConnectedPeers, PeerIp, CONTACT_PORT, TCP_PORT, UDP_PORT,
};

fn config(station: &str, ip: &str) -> Config {
    Config {
        callsign: "KB3GTN".to_string(),
        station: station.to_string(),
        contest: "FD".to_string(),
        local_ip: ip.to_string(),
        broadcast: "255.255.255.255".to_string(),
        db_path: "x.db".to_string(),
    }
}

#[test]
fn announces() {
    let cfg = config("WA3NAN-REMOTE", "192.168.1.17");
    assert_eq!(
        udp_announce(&cfg),
        "WA3NAN-REMOTE%192.168.1.17%12070%1.0.11229.0%WA3NAN-REMOTE%%"
    );
    assert_eq!(announce_address(&cfg), "255.255.255.255:12070");
    assert_eq!(contact_address(&cfg), "192.168.1.255:12060");
    assert_eq!((TCP_PORT, UDP_PORT, CONTACT_PORT), (12070, 12070, 12060));
    assert_eq!(address("::1", 65535), "::1:65535");
    assert_eq!(address("", 0), ":0");
}

#[test]
fn subnets() {
    assert_eq!(subnet_broadcast("192.168.1.17"), "192.168.1.255");
    assert_eq!(subnet_broadcast("10.0.0.1"), "10.0.0.255");
    assert_eq!(subnet_broadcast("..."), "...255");
    for ip in ["", "fe80::1", "1.2.3", "1.2.3.4.5"] {
        assert_eq!(subnet_broadcast(ip), "255.255.255.255");
    }
}

#[test]
fn own_announces_are_ignored() {
    let cfg = config("STN", "10.0.0.1");
    assert!(parse_announce(&udp_announce(&cfg), &cfg).is_none());
    let spaced = config(" S TN ", "10.0.0.1");
    assert!(parse_announce(&udp_announce(&spaced), &spaced).is_none());
}

#[test]
fn other_announces_are_heard() {
    let cfg = config("STN", "10.0.0.1");
    // names that begin with the name of this station, or are the beginning of it, are others
    for station in ["OTHER", "ST", "STN2", "STN ", " STN", "stn", "", "  X", " "] {
        let heard = parse_announce(&udp_announce(&config(station, "10.0.0.2")), &cfg).unwrap();
        assert_eq!(heard.ip, "10.0.0.2");
        assert_eq!(heard.port, 12070);
    }
    let heard = hear_announce(b"N1\xff%10.0.0.3%12071%v%\r\n", &cfg).unwrap();
    assert_eq!((heard.ip.as_str(), heard.port), ("10.0.0.3", 12071));
    let heard = hear_announce(b"N1%not an address%port", &cfg).unwrap();
    assert_eq!((heard.ip.as_str(), heard.port), ("not an address", 12070));
    assert!(hear_announce(b"N1%10.0.0.3", &cfg).is_none());
    assert!(hear_announce(b"", &cfg).is_none());
}

#[test]
fn ports_are_read_as_u16() {
    for s in [
        "0", "12070", "65535", "65536", "+1", "+", "-0", "-1", "", " 1", "1 ", "00000000000000000012", "99999999999999999999",
        "1_0", "0x1", "٣", "++1", "+0065535", "655350", "1.0",
    ] {
        assert_eq!(parse_port(s), s.parse::<u16>().ok(), "{}", s);
    }
}

#[test]
fn each_station_is_connected_to_once() {
    let mut peers = ConnectedPeers::new();
    let a = PeerIp::V4(0x0a00_0001);
    let b = PeerIp::V6(0x0a00_0001);
    assert!(peers.claim(a));
    assert!(!peers.claim(a));
    assert!(peers.claim(b));
    assert!(!peers.claim(b));
    peers.release(a);
    assert!(!peers.claim(b));
    assert!(peers.claim(a));
    peers.release(PeerIp::V4(7));
    assert!(!peers.claim(a));
}
