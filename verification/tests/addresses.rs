use orion::net::{
    client_listen_addr, over_websocket, peer_listen_addr, should_validate, unpack_addr, IpAddr,
    SocketAddr,
};

#[test]
fn addresses_tell_host_and_port() {
    let v4 = SocketAddr::V4 { ip: [10, 0, 0, 1], port: 8080 };
    assert!(matches!(v4.ip(), IpAddr::V4([10, 0, 0, 1])));
    assert_eq!(v4.port(), 8080);
    let v6 = SocketAddr::V6 { ip: [1; 16], port: 1, flowinfo: 2, scope_id: 3 };
    assert!(matches!(v6.ip(), IpAddr::V6(ip) if ip == [1; 16]));
    assert_eq!(v6.port(), 1);
}

#[test]
fn addresses_are_reached_over_tcp() {
    let v4 = SocketAddr::V4 { ip: [127, 0, 0, 1], port: 8080 };
    assert_eq!(unpack_addr(v4).to_string(), "/ip4/127.0.0.1/tcp/8080");
    let mut ip = [0; 16];
    ip[15] = 1;
    let v6 = SocketAddr::V6 { ip, port: 9, flowinfo: 5, scope_id: 6 };
    assert_eq!(unpack_addr(v6).to_string(), "/ip6/::1/tcp/9");
}

#[test]
fn servers_listen_on_every_interface() {
    assert_eq!(peer_listen_addr(8800).to_string(), "/ip4/0.0.0.0/tcp/8800");
    assert_eq!(client_listen_addr(8801).to_string(), "/ip4/0.0.0.0/tcp/8801/ws");
}

#[test]
fn clients_reach_nodes_by_websocket() {
    let addr = unpack_addr(SocketAddr::V4 { ip: [1, 2, 3, 4], port: 5 });
    assert_eq!(over_websocket(addr).to_string(), "/ip4/1.2.3.4/tcp/5/ws");
}

#[test]
fn only_peers_pass_without_proof() {
    assert!(!should_validate(&peer_listen_addr(8800), 8800));
    assert!(should_validate(&client_listen_addr(8801), 8800));
    assert!(!should_validate(&"/ip4/1.2.3.4/udp/8800/quic".parse().unwrap(), 8800));
    assert!(should_validate(&"/dns4/example.com/sctp/8800".parse().unwrap(), 8800));
    assert!(should_validate(&multiaddr::Multiaddr::empty(), 8800));
}
