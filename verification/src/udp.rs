//! Real IPv4/UDP bytes, encoded and decoded by etherparse: the standard
//! protocols the simulator carries inside its own link framing.
//!
//! etherparse does the byte work; what is verified here is the decision on
//! top of it: a decoded packet is a UDP view exactly when it is IPv4 carrying
//! UDP, and that view holds what the decoder found, field for field.

use vstd::prelude::*;
use etherparse::{NetHeaders, PacketBuilder, PacketHeaders, TransportHeader};

verus! {

/// The largest UDP payload an IPv4 packet without options can carry: the
/// 16-bit total length less the 20-byte IPv4 header and the 8-byte UDP header.
pub const MAX_UDP_IPV4_PAYLOAD: usize = 65535 - 20 - 8;

/// The network layer a decoder found.
#[derive(Debug, Clone, Copy, PartialEq, Eq)]
pub enum NetLayer {
    /// IPv4, with its source and destination addresses.
    Ipv4([u8; 4], [u8; 4]),
    Ipv6,
    Arp,
}

/// The transport layer a decoder found.
#[derive(Debug, Clone, Copy, PartialEq, Eq, Structural)]
pub enum TransportLayer {
    /// UDP, with its source and destination ports.
    Udp(u16, u16),
    Tcp,
    Icmpv4,
    Icmpv6,
    Igmp,
}

/// What a decoder found in a packet: its network layer, its transport layer
/// and the payload after the last header it understood.
pub type Decoded = (Option<NetLayer>, Option<TransportLayer>, Vec<u8>);

/// A clean IPv4+UDP packet, read back.
#[derive(Debug, Clone, PartialEq, Eq)]
pub struct UdpView {
    pub src_ip: [u8; 4],
    pub dst_ip: [u8; 4],
    pub src_port: u16,
    pub dst_port: u16,
    pub payload: Vec<u8>,
}

/// What etherparse's `PacketHeaders::from_ip_slice` finds in `bytes` taken as
/// the start of an IP header: `None` when it refuses them, else the network
/// layer, the transport layer and the payload slice.
pub uninterp spec fn ip_headers_of(bytes: Seq<u8>) -> Option<(Option<NetLayer>, Option<TransportLayer>, Seq<u8>)>;

/// The bytes etherparse's `PacketBuilder` writes for an IPv4 header (no
/// options) followed by a UDP header and `payload`.
pub uninterp spec fn udp_ipv4_bytes(
    src_ip: Seq<u8>,
    dst_ip: Seq<u8>,
    src_port: u16,
    dst_port: u16,
    ttl: u8,
    payload: Seq<u8>,
) -> Seq<u8>;

/// A decoder's findings with the payload taken by its contents.
pub open spec fn decoded_view(d: Option<Decoded>) -> Option<(Option<NetLayer>, Option<TransportLayer>, Seq<u8>)> {
    match d {
        Some((net, transport, payload)) => Some((net, transport, payload@)),
        None => None,
    }
}

/// The UDP view of a decoder's findings: present exactly when the network
/// layer is IPv4 and the transport layer UDP.
pub open spec fn udp_fields(h: Option<(Option<NetLayer>, Option<TransportLayer>, Seq<u8>)>) -> Option<
    ([u8; 4], [u8; 4], u16, u16, Seq<u8>),
> {
    match h {
        Some((Some(NetLayer::Ipv4(src, dst)), Some(TransportLayer::Udp(sp, dp)), payload)) => Some(
            (src, dst, sp, dp, payload),
        ),
        _ => None,
    }
}

/// A view's fields, the payload taken by its contents.
pub open spec fn view_fields(v: Option<UdpView>) -> Option<([u8; 4], [u8; 4], u16, u16, Seq<u8>)> {
    match v {
        Some(u) => Some((u.src_ip, u.dst_ip, u.src_port, u.dst_port, u.payload@)),
        None => None,
    }
}

/// Calls etherparse's `PacketBuilder::ipv4(..).udp(..)` and writes the packet
/// into a `Vec`. Claims: the bytes are the builder's (named), 28 bytes of
/// headers precede the payload, and etherparse's own decoder reads back the
/// addresses, ports and payload that went in. The builder fails only when the
/// IPv4 total length would pass 65535, which `requires` rules out.
#[verifier::external_body]
fn write_udp_ipv4(src_ip: [u8; 4], dst_ip: [u8; 4], src_port: u16, dst_port: u16, ttl: u8, payload: &[u8]) -> (r:
    Vec<u8>)
    requires
        payload@.len() <= MAX_UDP_IPV4_PAYLOAD,
    ensures
        r@ == udp_ipv4_bytes(src_ip@, dst_ip@, src_port, dst_port, ttl, payload@),
        r@.len() == 28 + payload@.len(),
        ip_headers_of(r@) == Some(
            (Some(NetLayer::Ipv4(src_ip, dst_ip)), Some(TransportLayer::Udp(src_port, dst_port)), payload@),
        ),
{
    let builder = PacketBuilder::ipv4(src_ip, dst_ip, ttl).udp(src_port, dst_port);
    let mut bytes = Vec::with_capacity(builder.size(payload.len()));
    match builder.write(&mut bytes, payload) {
        Ok(()) => bytes,
        Err(_) => Vec::new(),
    }
}

/// Calls etherparse's `PacketHeaders::from_ip_slice` and converts what it
/// found, variant for variant, into the library's own layers. Claims only
/// that the result is the decoder's (named).
#[verifier::external_body]
fn decode_ip(bytes: &[u8]) -> (r: Option<Decoded>)
    ensures
        decoded_view(r) == ip_headers_of(bytes@),
{
    let h = PacketHeaders::from_ip_slice(bytes).ok()?;
    let net = h.net.map(|n| match n {
        NetHeaders::Ipv4(ip, _) => NetLayer::Ipv4(ip.source, ip.destination),
        NetHeaders::Ipv6(..) => NetLayer::Ipv6,
        NetHeaders::Arp(_) => NetLayer::Arp,
    });
    let transport = h.transport.map(|t| match t {
        TransportHeader::Udp(u) => TransportLayer::Udp(u.source_port, u.destination_port),
        TransportHeader::Tcp(_) => TransportLayer::Tcp,
        TransportHeader::Icmpv4(_) => TransportLayer::Icmpv4,
        TransportHeader::Icmpv6(_) => TransportLayer::Icmpv6,
        TransportHeader::Igmp(_) => TransportLayer::Igmp,
    });
    Some((net, transport, h.payload.slice().to_vec()))
}

/// Build a full IPv4+UDP packet (no Ethernet: the link frame is the link
/// layer). Whatever goes in, the decoder reads back.
pub fn build_udp_ipv4(src_ip: [u8; 4], dst_ip: [u8; 4], src_port: u16, dst_port: u16, ttl: u8, payload: &[u8]) -> (r:
    Vec<u8>)
    requires
        payload@.len() <= MAX_UDP_IPV4_PAYLOAD,
    ensures
        r@ == udp_ipv4_bytes(src_ip@, dst_ip@, src_port, dst_port, ttl, payload@),
        r@.len() == 28 + payload@.len(),
        udp_fields(ip_headers_of(r@)) == Some((src_ip, dst_ip, src_port, dst_port, payload@)),
{
    write_udp_ipv4(src_ip, dst_ip, src_port, dst_port, ttl, payload)
}

/// The UDP view of what a decoder found: `Some` exactly when it found IPv4
/// carrying UDP, holding the addresses, ports and payload it found.
pub fn udp_view_of(decoded: Option<Decoded>) -> (v: Option<UdpView>)
    ensures
        view_fields(v) == udp_fields(decoded_view(decoded)),
{
    match decoded {
        Some((Some(NetLayer::Ipv4(src_ip, dst_ip)), Some(TransportLayer::Udp(src_port, dst_port)), payload)) => Some(
            UdpView { src_ip, dst_ip, src_port, dst_port, payload },
        ),
        _ => None,
    }
}

/// Parse bytes that should start at an IPv4 header. `None` means not clean
/// IPv4+UDP, which callers count as a network reality, never an error.
pub fn parse_udp_ipv4(bytes: &[u8]) -> (v: Option<UdpView>)
    ensures
        view_fields(v) == udp_fields(ip_headers_of(bytes@)),
{
    udp_view_of(decode_ip(bytes))
}

} // verus!
