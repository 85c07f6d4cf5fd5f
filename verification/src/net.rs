//! Addresses of nodes: as the chain stores them, and as a transport takes them.

use vstd::prelude::*;

verus! {

/// Address of a host.
#[derive(Clone, Copy, Debug)]
pub enum IpAddr {
    V4([u8; 4]),
    V6([u8; 16]),
}

/// Address of a service on a host.
#[derive(Clone, Copy, Debug)]
#[allow(inconsistent_fields)]
pub enum SocketAddr {
    V4 { ip: [u8; 4], port: u16 },
    V6 { ip: [u8; 16], port: u16, flowinfo: u32, scope_id: u32 },
}

impl SocketAddr {
    /// The host.
    pub open spec fn spec_ip(self) -> IpAddr {
        match self {
            SocketAddr::V4 { ip, .. } => IpAddr::V4(ip),
            SocketAddr::V6 { ip, .. } => IpAddr::V6(ip),
        }
    }

    /// The host.
    pub fn ip(&self) -> (ip: IpAddr)
        ensures
            ip == self.spec_ip(),
    {
        match self {
            SocketAddr::V4 { ip, .. } => IpAddr::V4(*ip),
            SocketAddr::V6 { ip, .. } => IpAddr::V6(*ip),
        }
    }

    /// The port on the host.
    pub open spec fn spec_port(self) -> u16 {
        match self {
            SocketAddr::V4 { port, .. } => port,
            SocketAddr::V6 { port, .. } => port,
        }
    }

    /// The port on the host.
    pub fn port(&self) -> (port: u16)
        ensures
            port == self.spec_port(),
    {
        match self {
            SocketAddr::V4 { port, .. } => *port,
            SocketAddr::V6 { port, .. } => *port,
        }
    }
}

/// One step of a transport address.
#[derive(Debug)]
pub enum Protocol {
    Ip4([u8; 4]),
    Ip6([u8; 16]),
    Tcp(u16),
    Udp(u16),
    /// A web socket under a path.
    Ws(String),
}

/// Mathematical contents of a `Protocol`.
#[verifier::ext_equal]
pub enum ProtocolModel {
    Ip4(Seq<u8>),
    Ip6(Seq<u8>),
    Tcp(u16),
    Udp(u16),
    Ws(Seq<char>),
}

impl View for Protocol {
    type V = ProtocolModel;

    open spec fn view(&self) -> ProtocolModel {
        match self {
            Protocol::Ip4(ip) => ProtocolModel::Ip4(ip@),
            Protocol::Ip6(ip) => ProtocolModel::Ip6(ip@),
            Protocol::Tcp(port) => ProtocolModel::Tcp(*port),
            Protocol::Udp(port) => ProtocolModel::Udp(*port),
            Protocol::Ws(path) => ProtocolModel::Ws(path@),
        }
    }
}

#[verifier::external_type_specification]
#[verifier::external_body]
pub struct ExMultiaddr(multiaddr::Multiaddr);

/// The steps of a transport address in order, as `multiaddr::Multiaddr::iter`
/// gives them. A step of a kind that `Protocol` does not have is `None`.
pub uninterp spec fn protocols(addr: multiaddr::Multiaddr) -> Seq<Option<ProtocolModel>>;

/// Calls `multiaddr::Multiaddr::empty`: an address without any step.
#[verifier::external_body]
fn address_empty() -> (addr: multiaddr::Multiaddr)
    ensures
        protocols(addr) == Seq::<Option<ProtocolModel>>::empty(),
{
    multiaddr::Multiaddr::empty()
}

/// Calls `multiaddr::Multiaddr::with`: the step goes behind those there are.
#[verifier::external_body]
fn address_with(addr: multiaddr::Multiaddr, protocol: Protocol) -> (longer: multiaddr::Multiaddr)
    ensures
        protocols(longer) == protocols(addr).push(Some(protocol@)),
{
    addr.with(match protocol {
        Protocol::Ip4(ip) => multiaddr::Protocol::Ip4(ip.into()),
        Protocol::Ip6(ip) => multiaddr::Protocol::Ip6(ip.into()),
        Protocol::Tcp(port) => multiaddr::Protocol::Tcp(port),
        Protocol::Udp(port) => multiaddr::Protocol::Udp(port),
        Protocol::Ws(path) => multiaddr::Protocol::Ws(path.into()),
    })
}

/// Calls `multiaddr::Multiaddr::iter` and gives the steps in order. A step of a
/// kind that `Protocol` does not have is `None`.
#[verifier::external_body]
fn address_steps(addr: &multiaddr::Multiaddr) -> (steps: Vec<Option<Protocol>>)
    ensures
        steps@.len() == protocols(*addr).len(),
        forall|i: int|
            0 <= i < steps@.len() ==> model(#[trigger] steps@[i]) == protocols(*addr)[i],
{
    addr.iter().map(|step| match step {
        multiaddr::Protocol::Ip4(ip) => Some(Protocol::Ip4(ip.octets())),
        multiaddr::Protocol::Ip6(ip) => Some(Protocol::Ip6(ip.octets())),
        multiaddr::Protocol::Tcp(port) => Some(Protocol::Tcp(port)),
        multiaddr::Protocol::Udp(port) => Some(Protocol::Udp(port)),
        multiaddr::Protocol::Ws(path) => Some(Protocol::Ws(path.into_owned())),
        _ => None,
    }).collect()
}

/// Mathematical contents of a step of some kind.
pub open spec fn model(step: Option<Protocol>) -> Option<ProtocolModel> {
    match step {
        Some(protocol) => Some(protocol@),
        None => None,
    }
}

/// The step that leads to a host.
pub open spec fn host(ip: IpAddr) -> ProtocolModel {
    match ip {
        IpAddr::V4(ip) => ProtocolModel::Ip4(ip@),
        IpAddr::V6(ip) => ProtocolModel::Ip6(ip@),
    }
}

/// The transport address of a service that is reached over TCP.
pub fn unpack_addr(addr: SocketAddr) -> (unpacked: multiaddr::Multiaddr)
    ensures
        protocols(unpacked) == seq![
            Some(host(addr.spec_ip())),
            Some(ProtocolModel::Tcp(addr.spec_port())),
        ],
{
    let ip: Protocol = match addr.ip() {
        IpAddr::V4(ip) => Protocol::Ip4(ip),
        IpAddr::V6(ip) => Protocol::Ip6(ip),
    };
    let unpacked = address_with(address_with(address_empty(), ip), Protocol::Tcp(addr.port()));
    assert(protocols(unpacked) =~= seq![
        Some(host(addr.spec_ip())),
        Some(ProtocolModel::Tcp(addr.spec_port())),
    ]);
    unpacked
}

/// The address at which a node listens for other nodes: `port` on every
/// interface.
pub fn peer_listen_addr(port: u16) -> (addr: multiaddr::Multiaddr)
    ensures
        protocols(addr) == seq![
            Some(ProtocolModel::Ip4(seq![0u8, 0u8, 0u8, 0u8])),
            Some(ProtocolModel::Tcp(port)),
        ],
{
    let unspecified: [u8; 4] = [0, 0, 0, 0];
    assert(unspecified@ =~= seq![0u8, 0u8, 0u8, 0u8]);
    let addr = address_with(
        address_with(address_empty(), Protocol::Ip4(unspecified)),
        Protocol::Tcp(port),
    );
    assert(protocols(addr) =~= seq![
        Some(ProtocolModel::Ip4(seq![0u8, 0u8, 0u8, 0u8])),
        Some(ProtocolModel::Tcp(port)),
    ]);
    addr
}

/// The same address, spoken to by way of a web socket at its root.
pub fn over_websocket(addr: multiaddr::Multiaddr) -> (longer: multiaddr::Multiaddr)
    ensures
        protocols(longer) == protocols(addr).push(Some(ProtocolModel::Ws("/"@))),
{
    address_with(addr, Protocol::Ws("/".to_owned()))
}

/// The address at which a node listens for clients: a web socket at the root of
/// `ws_port` on every interface.
pub fn client_listen_addr(ws_port: u16) -> (addr: multiaddr::Multiaddr)
    ensures
        protocols(addr) == seq![
            Some(ProtocolModel::Ip4(seq![0u8, 0u8, 0u8, 0u8])),
            Some(ProtocolModel::Tcp(ws_port)),
            Some(ProtocolModel::Ws("/"@)),
        ],
{
    let addr = over_websocket(peer_listen_addr(ws_port));
    assert(protocols(addr) =~= seq![
        Some(ProtocolModel::Ip4(seq![0u8, 0u8, 0u8, 0u8])),
        Some(ProtocolModel::Tcp(ws_port)),
        Some(ProtocolModel::Ws("/"@)),
    ]);
    addr
}

/// Whether a step is a port, of either kind, with the given number.
pub open spec fn is_port(step: Option<ProtocolModel>, port: u16) -> bool {
    step == Some(ProtocolModel::Tcp(port)) || step == Some(ProtocolModel::Udp(port))
}

/// Whether an address holds the port `port`.
pub open spec fn at_port(steps: Seq<Option<ProtocolModel>>, port: u16) -> bool {
    exists|i: int| 0 <= i < steps.len() && is_port(#[trigger] steps[i], port)
}

/// Whether a connection that came in at `local` has to prove who it is: every
/// one does, but for those at the port for nodes.
pub fn should_validate(local: &multiaddr::Multiaddr, allowed_port: u16) -> (validate: bool)
    ensures
        validate == !at_port(protocols(*local), allowed_port),
{
    let steps: Vec<Option<Protocol>> = address_steps(local);
    let mut i: usize = 0;
    while i < steps.len()
        invariant
            i <= steps.len(),
            steps@.len() == protocols(*local).len(),
            forall|k: int|
                0 <= k < steps@.len() ==> model(#[trigger] steps@[k]) == protocols(*local)[k],
            forall|k: int|
                0 <= k < i ==> !is_port(#[trigger] protocols(*local)[k], allowed_port),
        decreases steps.len() - i,
    {
        assert(model(steps@[i as int]) == protocols(*local)[i as int]);
        let allowed: bool = match &steps[i] {
            Some(Protocol::Tcp(port)) => *port == allowed_port,
            Some(Protocol::Udp(port)) => *port == allowed_port,
            _ => false,
        };
        if allowed {
            assert(is_port(protocols(*local)[i as int], allowed_port));
            return false;
        }
        i = i + 1;
    }
    true
}

/// Nodes that connect at the port a node listens on for them are let in without
/// proof. Clients, at a port of another number, are not.
pub proof fn lemma_only_peers_pass(
    peers: multiaddr::Multiaddr,
    clients: multiaddr::Multiaddr,
    port: u16,
    ws_port: u16,
)
    requires
        protocols(peers) == seq![
            Some(ProtocolModel::Ip4(seq![0u8, 0u8, 0u8, 0u8])),
            Some(ProtocolModel::Tcp(port)),
        ],
        protocols(clients) == seq![
            Some(ProtocolModel::Ip4(seq![0u8, 0u8, 0u8, 0u8])),
            Some(ProtocolModel::Tcp(ws_port)),
            Some(ProtocolModel::Ws("/"@)),
        ],
        port != ws_port,
    ensures
        at_port(protocols(peers), port),
        !at_port(protocols(clients), port),
{
    assert(is_port(protocols(peers)[1], port));
}

/// The transport address leads over TCP to the host and port of `addr`, and nowhere
/// else.
pub open spec fn reaches(route: multiaddr::Multiaddr, addr: SocketAddr) -> bool {
    let steps = protocols(route);
    &&& steps.len() == 2
    &&& match addr {
        SocketAddr::V4 { ip, port } => {
            &&& steps[0] == Some(ProtocolModel::Ip4(ip@))
            &&& steps[1] == Some(ProtocolModel::Tcp(port))
        },
        SocketAddr::V6 { ip, port, .. } => {
            &&& steps[0] == Some(ProtocolModel::Ip6(ip@))
            &&& steps[1] == Some(ProtocolModel::Tcp(port))
        },
    }
}

/// An address of the chain is unpacked to one that reaches it, and its host and port
/// are those it was made of.
pub proof fn lemma_address_is_reached(
    addr: SocketAddr,
    four: [u8; 4],
    six: [u8; 16],
    port: u16,
    flowinfo: u32,
    scope_id: u32,
)
    ensures
        forall|route: multiaddr::Multiaddr| #[trigger]
            call_ensures(unpack_addr, (addr,), route) ==> reaches(route, addr),
        forall|ip: IpAddr| #[trigger]
            call_ensures(SocketAddr::ip, (&SocketAddr::V4 { ip: four, port },), ip) ==> ip
                == IpAddr::V4(four),
        forall|ip: IpAddr| #[trigger]
            call_ensures(
                SocketAddr::ip,
                (&SocketAddr::V6 { ip: six, port, flowinfo, scope_id },),
                ip,
            ) ==> ip == IpAddr::V6(six),
        forall|found: u16| #[trigger]
            call_ensures(SocketAddr::port, (&SocketAddr::V4 { ip: four, port },), found) ==> found
                == port,
        forall|found: u16| #[trigger]
            call_ensures(
                SocketAddr::port,
                (&SocketAddr::V6 { ip: six, port, flowinfo, scope_id },),
                found,
            ) ==> found == port,
{
}

/// A node listens over TCP on every interface, for nodes at one port and for clients
/// over a web socket at the root of another.
pub proof fn lemma_listens_everywhere(port: u16, lower: multiaddr::Multiaddr)
    ensures
        forall|addr: multiaddr::Multiaddr| #[trigger]
            call_ensures(peer_listen_addr, (port,), addr) ==> {
                &&& protocols(addr).len() == 2
                &&& protocols(addr)[0] matches Some(ProtocolModel::Ip4(ip)) && ip.len() == 4
                    && forall|i: int| 0 <= i < 4 ==> #[trigger] ip[i] == 0
                &&& protocols(addr)[1] == Some(ProtocolModel::Tcp(port))
            },
        forall|addr: multiaddr::Multiaddr| #[trigger]
            call_ensures(client_listen_addr, (port,), addr) ==> {
                &&& protocols(addr).len() == 3
                &&& protocols(addr)[0] matches Some(ProtocolModel::Ip4(ip)) && ip.len() == 4
                    && forall|i: int| 0 <= i < 4 ==> #[trigger] ip[i] == 0
                &&& protocols(addr)[1] == Some(ProtocolModel::Tcp(port))
                &&& protocols(addr)[2] matches Some(ProtocolModel::Ws(path)) && path.len() == 1
                    && path[0] == '/'
            },
        forall|addr: multiaddr::Multiaddr| #[trigger]
            call_ensures(over_websocket, (lower,), addr) ==> {
                let n = protocols(lower).len();
                &&& protocols(addr).len() == n + 1
                &&& forall|i: int| 0 <= i < n ==> #[trigger] protocols(addr)[i]
                    == protocols(lower)[i]
                &&& protocols(addr)[n as int] matches Some(ProtocolModel::Ws(path)) && path.len()
                    == 1 && path[0] == '/'
            },
{
    reveal_strlit("/");
}

/// A connection need not prove who it is exactly where it came in at the port for
/// nodes, be that of TCP or UDP.
pub proof fn lemma_others_prove_who_they_are(local: multiaddr::Multiaddr, allowed_port: u16)
    ensures
        forall|validate: bool| #[trigger]
            call_ensures(should_validate, (&local, allowed_port), validate) ==> (!validate
                <==> exists|i: int|
                0 <= i < protocols(local).len() && match #[trigger] protocols(local)[i] {
                    Some(ProtocolModel::Tcp(port)) => port == allowed_port,
                    Some(ProtocolModel::Udp(port)) => port == allowed_port,
                    _ => false,
                }),
{
    assert forall|validate: bool| #[trigger]
        call_ensures(should_validate, (&local, allowed_port), validate) implies (!validate
        <==> exists|i: int|
        0 <= i < protocols(local).len() && match #[trigger] protocols(local)[i] {
            Some(ProtocolModel::Tcp(port)) => port == allowed_port,
            Some(ProtocolModel::Udp(port)) => port == allowed_port,
            _ => false,
        }) by {
        if !validate {
            let i = choose|i: int|
                0 <= i < protocols(local).len() && is_port(
                    #[trigger] protocols(local)[i],
                    allowed_port,
                );
            assert(protocols(local)[i] is Some);
        } else {
            assert forall|i: int| 0 <= i < protocols(local).len() implies !is_port(
                #[trigger] protocols(local)[i],
                allowed_port,
            ) by {}
        }
    }
}

} // verus!
