use terminus::udp::{
    build_udp_ipv4, parse_udp_ipv4, udp_view_of, NetLayer, TransportLayer, UdpView,
    MAX_UDP_IPV4_PAYLOAD,
};

#[test]
fn roundtrip() {
    let payload = [1u8, 2, 3, 4];
    let bytes = build_udp_ipv4([10, 0, 0, 1], [10, 0, 0, 6], 4001, 7, 64, &payload);
    assert_eq!(bytes[0] >> 4, 4, "IPv4 version nibble");
    let v = parse_udp_ipv4(&bytes).unwrap();
    assert_eq!(v.src_ip, [10, 0, 0, 1]);
    assert_eq!(v.dst_ip, [10, 0, 0, 6]);
    assert_eq!((v.src_port, v.dst_port), (4001, 7));
    assert_eq!(v.payload, payload);
}

#[test]
fn garbage_parses_to_none() {
    assert!(parse_udp_ipv4(&[0xDE, 0xAD, 0xBE, 0xEF]).is_none());
    assert!(parse_udp_ipv4(&[]).is_none());
}

#[test]
fn the_headers_take_twenty_eight_bytes() {
    let bytes = build_udp_ipv4([192, 168, 0, 1], [192, 168, 0, 2], 1, 2, 3, &[9; 100]);
    assert_eq!(bytes.len(), 128);
    let empty = build_udp_ipv4([192, 168, 0, 1], [192, 168, 0, 2], 1, 2, 3, &[]);
    assert_eq!(empty.len(), 28);
    assert_eq!(parse_udp_ipv4(&empty).unwrap().payload, Vec::<u8>::new());
}

#[test]
fn the_largest_payload_still_roundtrips() {
    let payload = vec![0x5a; MAX_UDP_IPV4_PAYLOAD];
    let bytes = build_udp_ipv4([1, 2, 3, 4], [5, 6, 7, 8], 65535, 0, 255, &payload);
    assert_eq!(bytes.len(), 65535);
    let v = parse_udp_ipv4(&bytes).unwrap();
    assert_eq!((v.src_port, v.dst_port), (65535, 0));
    assert_eq!(v.payload.len(), MAX_UDP_IPV4_PAYLOAD);
}

#[test]
fn a_view_needs_ipv4_carrying_udp() {
    let udp = Some(TransportLayer::Udp(5, 6));
    let ipv4 = Some(NetLayer::Ipv4([1, 1, 1, 1], [2, 2, 2, 2]));
    assert_eq!(
        udp_view_of(Some((ipv4, udp, vec![7, 8]))),
        Some(UdpView {
            src_ip: [1, 1, 1, 1],
            dst_ip: [2, 2, 2, 2],
            src_port: 5,
            dst_port: 6,
            payload: vec![7, 8],
        })
    );
    assert_eq!(udp_view_of(Some((Some(NetLayer::Ipv6), udp, vec![]))), None);
    assert_eq!(udp_view_of(Some((Some(NetLayer::Arp), udp, vec![]))), None);
    assert_eq!(udp_view_of(Some((None, udp, vec![]))), None);
    assert_eq!(udp_view_of(Some((ipv4, Some(TransportLayer::Tcp), vec![]))), None);
    assert_eq!(udp_view_of(Some((ipv4, Some(TransportLayer::Icmpv4), vec![]))), None);
    assert_eq!(udp_view_of(Some((ipv4, None, vec![]))), None);
    assert_eq!(udp_view_of(None), None);
}

#[test]
fn a_tcp_segment_is_not_a_udp_view() {
    // A minimal IPv4 header (protocol 6, TCP) followed by a 20-byte TCP header.
    let mut bytes = vec![
        0x45, 0, 0, 40, 0, 0, 0x40, 0, 64, 6, 0, 0, 10, 0, 0, 1, 10, 0, 0, 2,
    ];
    bytes.extend_from_slice(&[0, 80, 0, 81, 0, 0, 0, 0, 0, 0, 0, 0, 0x50, 0, 0, 0, 0, 0, 0, 0]);
    assert!(parse_udp_ipv4(&bytes).is_none());
}
