//! The home gateway's mapping protocols on the wire.

use lightbringer::addr::{IpAddr, SocketAddr};
use lightbringer::overlay::sim::gateway::{
    parse_http_request, ssdp_multicast, Gateway, GatewayConfig, PCP_RESULT_NOT_AUTHORIZED,
};
use lightbringer::overlay::sim::nat_box::{FirewallBox, FirewallConfig, NatBox, NatConfig};
use lightbringer::time::Duration;

fn addr(octets: [u8; 4], port: u16) -> SocketAddr {
    SocketAddr::new(IpAddr::v4(octets[0], octets[1], octets[2], octets[3]), port)
}

fn pcp() -> SocketAddr {
    addr([10, 7, 0, 1], 5351)
}

fn ip_to_16(ip: IpAddr) -> [u8; 16] {
    match ip {
        IpAddr::V4(n) => {
            let mut out = [0u8; 16];
            out[10] = 0xff;
            out[11] = 0xff;
            out[12..].copy_from_slice(&n.to_be_bytes());
            out
        }
        IpAddr::V6(n) => n.to_be_bytes(),
    }
}

fn gw(config: GatewayConfig) -> (Gateway, NatBox) {
    let nat = NatBox::new(NatConfig::port_restricted_cone(), IpAddr::v4(198, 51, 0, 8), 7);
    (Gateway::new(config, IpAddr::v4(10, 7, 0, 1)), nat)
}

fn natpmp_map_request(internal: u16, suggested: u16, lifetime: u32) -> Vec<u8> {
    let mut req = vec![0, 1, 0, 0];
    req.extend_from_slice(&internal.to_be_bytes());
    req.extend_from_slice(&suggested.to_be_bytes());
    req.extend_from_slice(&lifetime.to_be_bytes());
    req
}

fn pcp_map_request(client: IpAddr, internal: u16, suggested: u16, lifetime: u32) -> Vec<u8> {
    let mut req = vec![2, 1, 0, 0];
    req.extend_from_slice(&lifetime.to_be_bytes());
    req.extend_from_slice(&ip_to_16(client));
    req.extend_from_slice(&[0x11u8; 12]); // nonce
    req.push(17); // UDP
    req.extend_from_slice(&[0u8; 3]);
    req.extend_from_slice(&internal.to_be_bytes());
    req.extend_from_slice(&suggested.to_be_bytes());
    req.extend_from_slice(&ip_to_16(IpAddr::v4(0, 0, 0, 0)));
    req
}

#[test]
fn natpmp_grant_installs_lease_mapping() {
    let (mut gateway, mut nat) = gw(GatewayConfig::granting());
    let src: SocketAddr = addr([10, 7, 0, 2], 51000);
    let responses = gateway.handle_udp(
        0,
        src,
        pcp(),
        &natpmp_map_request(51_000, 51_000, 3600),
        &mut nat,
        None,
    );
    assert_eq!(responses.len(), 1);
    let (_, resp) = &responses[0];
    assert_eq!(resp[1], 129);
    assert_eq!(u16::from_be_bytes([resp[2], resp[3]]), 0, "success");
    let mapped = u16::from_be_bytes([resp[10], resp[11]]);
    assert_eq!(mapped, 51_000);
    // Granted lease clamps to the gateway max (120s < 3600s).
    assert_eq!(u32::from_be_bytes([resp[12], resp[13], resp[14], resp[15]]), 120);
    assert!(nat.static_map_live(0, mapped));
    // Inbound from a never-contacted source passes the lease mapping.
    let stranger: SocketAddr = addr([203, 0, 113, 99], 4242);
    let external = SocketAddr::new(nat.external_ip(), mapped);
    assert_eq!(nat.inbound(1, stranger, external), Ok(src));
}

#[test]
fn pcp_grant_deny_fake_and_off_behave_per_mode() {
    let src: SocketAddr = addr([10, 7, 0, 2], 51000);
    let client = IpAddr::v4(10, 7, 0, 2);
    let req = pcp_map_request(client, 51_000, 51_000, 600);

    let (mut gateway, mut nat) = gw(GatewayConfig::granting());
    let responses = gateway.handle_udp(0, src, pcp(), &req, &mut nat, None);
    let (_, resp) = &responses[0];
    assert_eq!(resp[3], 0, "success result");
    assert_eq!(u16::from_be_bytes([resp[42], resp[43]]), 51_000);
    assert!(nat.static_map_live(0, 51_000));

    let (mut gateway, mut nat) = gw(GatewayConfig::denying());
    let responses = gateway.handle_udp(0, src, pcp(), &req, &mut nat, None);
    assert_eq!(responses[0].1[3], PCP_RESULT_NOT_AUTHORIZED);
    assert!(!nat.static_map_live(0, 51_000));

    let (mut gateway, mut nat) = gw(GatewayConfig::grant_fake());
    let responses = gateway.handle_udp(0, src, pcp(), &req, &mut nat, None);
    assert_eq!(responses[0].1[3], 0, "fake grant answers success");
    assert!(!nat.static_map_live(0, 51_000), "but installs nothing");

    let (mut gateway, mut nat) = gw(GatewayConfig::absent());
    let responses = gateway.handle_udp(0, src, pcp(), &req, &mut nat, None);
    assert!(responses.is_empty(), "absent tier stays silent");
}

#[test]
fn pcp_v6_request_installs_firewall_pinhole() {
    let (mut gateway, mut nat) = gw(GatewayConfig::granting());
    let mut firewall = FirewallBox::new(FirewallConfig::default());
    let client: IpAddr = IpAddr::v6([0x2001, 0xdb8, 0, 7, 0, 0, 0, 2]);
    let src: SocketAddr = addr([10, 7, 0, 2], 51000);
    let req = pcp_map_request(client, 51_000, 51_000, 600);
    let responses = gateway.handle_udp(
        0,
        src,
        pcp(),
        &req,
        &mut nat,
        Some(&mut firewall),
    );
    assert_eq!(responses[0].1[3], 0);
    assert!(firewall.pinhole_live(0, 51_000));
    assert!(!nat.static_map_live(0, 51_000), "pinhole touches only the firewall");
}

#[test]
fn upnp_flow_describes_and_maps() {
    let (mut gateway, mut nat) = gw(GatewayConfig::upnp_only());
    // SSDP discovery.
    let msearch = b"M-SEARCH * HTTP/1.1\r\nHOST: 239.255.255.250:1900\r\nMAN: \"ssdp:discover\"\r\nST: urn:schemas-upnp-org:device:InternetGatewayDevice:1\r\n\r\n";
    let responses = gateway.handle_udp(
        0,
        addr([10, 7, 0, 2], 49152),
        ssdp_multicast(),
        msearch,
        &mut nat,
        None,
    );
    let text = String::from_utf8(responses[0].1.clone()).unwrap();
    assert!(text.contains("LOCATION: http://10.7.0.1:1900/rootDesc.xml"));

    // HTTP description.
    assert!(gateway.tcp_open(1, addr([10, 7, 0, 1], 1900)));
    let get = b"GET /rootDesc.xml HTTP/1.1\r\nHOST: 10.7.0.1:1900\r\n\r\n";
    let desc = gateway.tcp_bytes(0, 1, get, &mut nat);
    let desc = String::from_utf8(desc.concat()).unwrap();
    assert!(desc.contains("WANIPConnection:1"));
    assert!(desc.contains("<controlURL>/ctl/IPConn</controlURL>"));

    // SOAP AddPortMapping.
    let soap = "<?xml version=\"1.0\"?><s:Envelope><s:Body><u:AddPortMapping>\
        <NewRemoteHost></NewRemoteHost><NewExternalPort>51000</NewExternalPort>\
        <NewProtocol>UDP</NewProtocol><NewInternalPort>51000</NewInternalPort>\
        <NewInternalClient>10.7.0.2</NewInternalClient><NewEnabled>1</NewEnabled>\
        <NewPortMappingDescription>t</NewPortMappingDescription>\
        <NewLeaseDuration>600</NewLeaseDuration></u:AddPortMapping></s:Body></s:Envelope>";
    let post = format!(
        "POST /ctl/IPConn HTTP/1.1\r\nHOST: 10.7.0.1:1900\r\nSOAPACTION: \"urn:schemas-upnp-org:service:WANIPConnection:1#AddPortMapping\"\r\nCONTENT-LENGTH: {}\r\n\r\n{}",
        soap.len(),
        soap,
    );
    let resp = gateway.tcp_bytes(0, 1, post.as_bytes(), &mut nat);
    let resp = String::from_utf8(resp.concat()).unwrap();
    assert!(resp.starts_with("HTTP/1.1 200"));
    assert!(nat.static_map_live(0, 51_000));
}

#[test]
fn upnp_deny_and_split_delivery_and_malformed_are_handled() {
    // Deny: SOAP 718 error, no install.
    let (mut gateway, mut nat) = gw(GatewayConfig::denying());
    assert!(gateway.tcp_open(1, addr([10, 7, 0, 1], 1900)));
    let soap = "<u:AddPortMapping><NewExternalPort>51000</NewExternalPort>\
        <NewInternalPort>51000</NewInternalPort><NewInternalClient>10.7.0.2</NewInternalClient>\
        <NewLeaseDuration>600</NewLeaseDuration></u:AddPortMapping>";
    let post = format!(
        "POST /ctl/IPConn HTTP/1.1\r\nCONTENT-LENGTH: {}\r\n\r\n{}",
        soap.len(),
        soap,
    );
    // Deliver the request split across arbitrary chunk boundaries.
    let bytes = post.as_bytes();
    let mut responses = Vec::new();
    for chunk in bytes.chunks(7) {
        responses.extend(gateway.tcp_bytes(0, 1, chunk, &mut nat));
    }
    let resp = String::from_utf8(responses.concat()).unwrap();
    assert!(resp.contains("718"));
    assert!(!nat.static_map_live(0, 51_000));

    // Junk bytes on the wire never panic and never install.
    let (mut gateway, mut nat) = gw(GatewayConfig::granting());
    for junk in [&b"\xff\xfe\xfd"[..], &[2u8; 59], &[0u8; 11], &[]] {
        let _ = gateway.handle_udp(
            0,
            addr([10, 7, 0, 2], 51000),
            pcp(),
            junk,
            &mut nat,
            None,
        );
    }
    assert!(!nat.static_map_live(0, 51_000));
}

#[test]
fn lease_expiry_and_renewal() {
    let (mut gateway, mut nat) = gw(GatewayConfig::granting().lease(Duration::from_secs(60)));
    let src: SocketAddr = addr([10, 7, 0, 2], 51000);
    let req = natpmp_map_request(51_000, 51_000, 60);
    gateway.handle_udp(0, src, pcp(), &req, &mut nat, None);
    let nanos = |secs: u64| secs * 1_000_000_000;
    assert!(nat.static_map_live(nanos(59), 51_000));
    assert!(!nat.static_map_live(nanos(61), 51_000));
    // Renewal at half-life extends the lease.
    gateway.handle_udp(nanos(30), src, pcp(), &req, &mut nat, None);
    assert!(nat.static_map_live(nanos(89), 51_000));
    assert_eq!(nat.stats().static_installs, 2);
}

#[test]
fn the_gateway_knows_its_own_addresses() {
    let (gateway, _) = gw(GatewayConfig::granting());
    assert_eq!(gateway.udp_endpoint(), pcp());
    assert_eq!(gateway.lan_ip(), IpAddr::v4(10, 7, 0, 1));
    assert!(gateway.is_gateway_dst(pcp()));
    assert!(gateway.is_gateway_dst(ssdp_multicast()));
    assert!(!gateway.is_gateway_dst(addr([10, 7, 0, 2], 5351)));
}

#[test]
fn natpmp_tells_the_external_address() {
    let (mut gateway, mut nat) = gw(GatewayConfig::natpmp_only());
    let src = addr([10, 7, 0, 2], 51_000);
    let answers = gateway.handle_udp(0, src, pcp(), &[0, 0], &mut nat, None);
    assert_eq!(answers.len(), 1);
    assert_eq!(answers[0].1[1], 128);
    assert_eq!(&answers[0].1[8..12], &[198, 51, 0, 8]);
}

#[test]
fn connections_are_bounded_and_close() {
    let (mut gateway, _) = gw(GatewayConfig::upnp_only());
    let http = addr([10, 7, 0, 1], 1900);
    for conn in 0..16u64 {
        assert!(gateway.tcp_open(conn, http));
    }
    assert!(!gateway.tcp_open(99, http));
    gateway.tcp_closed(3);
    assert!(gateway.tcp_open(99, http));
    assert!(!gateway.tcp_open(100, addr([10, 7, 0, 1], 80)));
}

#[test]
fn soap_gives_the_external_address_in_words() {
    let (mut gateway, mut nat) = gw(GatewayConfig::upnp_only());
    assert!(gateway.tcp_open(1, addr([10, 7, 0, 1], 1900)));
    let soap = "<u:GetExternalIPAddress></u:GetExternalIPAddress>";
    let post = format!(
        "POST /ctl/IPConn HTTP/1.1\r\nCONTENT-LENGTH: {}\r\n\r\n{}",
        soap.len(),
        soap,
    );
    let answer = gateway.tcp_bytes(0, 1, post.as_bytes(), &mut nat).concat();
    let answer = String::from_utf8(answer).unwrap();
    assert!(answer.contains("<NewExternalIPAddress>198.51.0.8</NewExternalIPAddress>"), "{answer}");
}

#[test]
fn a_client_without_an_address_gets_no_mapping_over_soap() {
    let (mut gateway, mut nat) = gw(GatewayConfig::upnp_only());
    assert!(gateway.tcp_open(1, addr([10, 7, 0, 1], 1900)));
    let soap = "<u:AddPortMapping><NewExternalPort>51000</NewExternalPort>\
        <NewInternalPort>51000</NewInternalPort><NewInternalClient>not-an-address</NewInternalClient>\
        <NewLeaseDuration>600</NewLeaseDuration></u:AddPortMapping>";
    let post = format!(
        "POST /ctl/IPConn HTTP/1.1\r\nCONTENT-LENGTH: {}\r\n\r\n{}",
        soap.len(),
        soap,
    );
    let answer = gateway.tcp_bytes(0, 1, post.as_bytes(), &mut nat).concat();
    let answer = String::from_utf8(answer).unwrap();
    assert!(!answer.starts_with("HTTP/1.1 200"), "{answer}");
    assert!(!nat.static_map_live(0, 51_000));
}

/// One request is taken off the front, and never before it is complete.
#[test]
fn a_request_is_a_prefix_of_what_has_arrived() {
    let one = b"POST /ctl/IPConn HTTP/1.1\r\ncontent-length: 4\r\n\r\nbody".to_vec();
    let (request, n) = parse_http_request(&one).unwrap();
    assert_eq!(n, one.len());
    assert_eq!(request.method, b"POST");
    assert_eq!(request.path, b"/ctl/IPConn");
    assert_eq!(request.body, b"body");
    for k in 0..n {
        assert!(parse_http_request(&one[..k]).is_none(), "{k} bytes");
    }
    let mut more = one.clone();
    more.extend_from_slice(b"GET / HTTP/1.1\r\n\r\n");
    let (first, taken) = parse_http_request(&more).unwrap();
    assert_eq!((taken, first.body), (n, b"body".to_vec()));
}
