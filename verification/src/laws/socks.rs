//! SOCKS5: which clients are served, what they are understood to ask for, and what a proxy
//! is asked.

use crate::addr::{ipv4, ipv4_text, ipv6, ipv6_full_text, IpAddress, SocketAddress};
use crate::socks5::{
    address_bytes, addressed, canonical, client_step, command_of, connect_bytes, datagram,
    hello_bytes, law_address_round_trip, read_address, read_datagram, reply_bytes, serve,
    server_step, simple_reply_bytes, ClientPhase, ClientStepView, Command, ServerPhase,
    ServerStepView, Service, SocksError, TargetView, ATYP_DOMAIN, ATYP_IPV4, ATYP_IPV6, AUTH_NONE,
    CMD_CONNECT, CMD_UDP_ASSOCIATE, NO_ACCEPTABLE_AUTH, REP_CMD_NOT_SUPPORTED, REP_GENERAL_FAILURE,
    REP_SUCCESS, SOCKS_VERSION,
};
use crate::wire::{
    be_bytes, lemma_be_bytes_len, lemma_be_round_trip, lemma_be_value_2, lemma_pow256_values,
};
use vstd::prelude::*;
use vstd::utf8::{decode_utf8, encode_utf8, valid_utf8};

verus! {

/// The numbers of the protocol.
pub proof fn law_protocol_numbers()
    ensures
        SOCKS_VERSION == 5,
        AUTH_NONE == 0 && NO_ACCEPTABLE_AUTH == 255,
        CMD_CONNECT == 1 && CMD_UDP_ASSOCIATE == 3,
        ATYP_IPV4 == 1 && ATYP_DOMAIN == 3 && ATYP_IPV6 == 4,
        REP_SUCCESS == 0 && REP_GENERAL_FAILURE == 1 && REP_CMD_NOT_SUPPORTED == 7,
{
}

// ── Serving a client ──────────────────────────────────────────────────

/// How many bytes are due: two of greeting, the methods, four of request, then the address:
/// six for IPv4, eighteen for IPv6, and for a name its length, the name and the port.
pub proof fn law_what_is_due(command: Command, n: u8, bound: u16)
    ensures
        ServerPhase::Greeting.due() == 2,
        ServerPhase::Methods(n).due() == n,
        ServerPhase::Request.due() == 4,
        (ServerPhase::Address { command, atyp: 1 }).due() == 6,
        (ServerPhase::Address { command, atyp: 4 }).due() == 18,
        (ServerPhase::Address { command, atyp: 3 }).due() == 1,
        (ServerPhase::Name { command, len: n }).due() == n + 2,
        ClientPhase::Greeting.due() == 2,
        ClientPhase::Reply.due() == 4,
        ClientPhase::NameLen.due() == 1,
        ClientPhase::Bound(bound).due() == bound,
{
}

/// A handshake moves on only to read more: one that is agreed to, refused or given up stays
/// where it is.
pub proof fn law_where_handshakes_end(
    service: Service,
    phase: ServerPhase,
    input: Seq<u8>,
    host: Seq<char>,
    port: u16,
    other: ClientPhase,
)
    ensures
        !(server_step(service, phase, input).1 is Read) ==> server_step(service, phase, input).0
            == phase,
        !(client_step(host, port, other, input).1 is Read) ==> client_step(
            host,
            port,
            other,
            input,
        ).0 == other,
{
}

/// A greeting in version 5 is followed by as many methods as it says; one in another
/// version is refused, without a reply.
pub proof fn law_greetings(service: Service, input: Seq<u8>)
    requires
        input.len() == 2,
    ensures
        input[0] == 5 ==> server_step(service, ServerPhase::Greeting, input) == (
            ServerPhase::Methods(input[1]),
            (ServerStepView::Read { reply: Seq::empty() }),
        ),
        input[0] != 5 ==> server_step(service, ServerPhase::Greeting, input).1 == (
        ServerStepView::Refuse { reply: Seq::empty(), error: SocksError::NotSocks5(input[0]) }),
{
}

/// Every list of methods that offers to go without authentication is agreed to, however
/// long it is and at whatever place the offer stands; every other one is refused.
pub proof fn law_methods(service: Service, n: u8, methods: Seq<u8>)
    ensures
        (exists|i: int| 0 <= i < methods.len() && #[trigger] methods[i] == 0) ==> server_step(
            service,
            ServerPhase::Methods(n),
            methods,
        ) == (ServerPhase::Request, (ServerStepView::Read { reply: seq![5u8, 0u8] })),
        (forall|i: int| 0 <= i < methods.len() ==> #[trigger] methods[i] != 0) ==> server_step(
            service,
            ServerPhase::Methods(n),
            methods,
        ).1 == (ServerStepView::Refuse {
            reply: seq![5u8, 255u8],
            error: SocksError::AuthRequired,
        }),
{
    if exists|i: int| 0 <= i < methods.len() && #[trigger] methods[i] == 0 {
        let i = choose|i: int| 0 <= i < methods.len() && #[trigger] methods[i] == 0;
        assert(methods.contains(methods[i]));
    }
}

/// A request in version 5 is understood by its second byte: 1 asks to connect, 3 for an
/// association, and a tunnel takes any. Its fourth byte says which address follows. The
/// third is not looked at.
pub proof fn law_requests(service: Service, input: Seq<u8>)
    requires
        input.len() == 4,
    ensures
        ({
            let (next, step) = server_step(service, ServerPhase::Request, input);
            let atyp = input[3];
            let known_address = atyp == 1 || atyp == 3 || atyp == 4;
            let tunnel = service == Service::Tunnel;
            let known_command = tunnel || input[1] == 1 || input[1] == 3;
            let command = if tunnel {
                Command::Tunnel
            } else if input[1] == 1 {
                Command::Connect
            } else {
                Command::UdpAssociate
            };
            &&& input[0] != 5 ==> step == (ServerStepView::Refuse {
                reply: Seq::empty(),
                error: SocksError::BadRequestVersion,
            })
            &&& input[0] == 5 && !known_command ==> step == (ServerStepView::Refuse {
                reply: seq![5u8, 7u8, 0u8, 1u8, 0u8, 0u8, 0u8, 0u8, 0u8, 0u8],
                error: SocksError::UnknownCommand(input[1]),
            })
            &&& input[0] == 5 && known_command && !known_address ==> step == (
            ServerStepView::Refuse {
                reply: Seq::empty(),
                error: SocksError::UnknownAddressType(atyp),
            })
            &&& input[0] == 5 && known_command && known_address ==> next == (
            ServerPhase::Address { command, atyp }) && step == (ServerStepView::Read {
                reply: Seq::empty(),
            })
        }),
{
}

/// The address of a request: of a name the length comes first. When it is there, a tunnel
/// is agreed to whatever it says, and a client's request is complete if it can be read.
pub proof fn law_request_addresses(
    service: Service,
    command: Command,
    atyp: u8,
    n: u8,
    input: Seq<u8>,
)
    ensures
        server_step(service, ServerPhase::Address { command, atyp: 3 }, seq![n]) == (
            (ServerPhase::Name { command, len: n }),
            (ServerStepView::Read { reply: Seq::empty() }),
        ),
        atyp != 3 ==> server_step(service, ServerPhase::Address { command, atyp }, input).1
            == addressed(command, atyp, seq![atyp] + input),
        server_step(service, ServerPhase::Name { command, len: n }, input).1 == addressed(
            command,
            3,
            seq![3u8, n] + input,
        ),
{
}

/// What a request comes to when its address is there.
pub proof fn law_complete_requests(command: Command, atyp: u8, data: Seq<u8>)
    ensures
        command == Command::Tunnel ==> addressed(command, atyp, data) == (ServerStepView::Tunnel {
            reply: seq![5u8, 0u8, 0u8, 1u8, 0u8, 0u8, 0u8, 0u8, 0u8, 0u8],
        }),
        command != Command::Tunnel && read_address(atyp, data) is Ok ==> addressed(
            command,
            atyp,
            data,
        ) == (ServerStepView::Accept { command, target: read_address(atyp, data)->Ok_0.0 }),
        command != Command::Tunnel && read_address(atyp, data) is Err ==> addressed(
            command,
            atyp,
            data,
        ) == (ServerStepView::Refuse {
            reply: Seq::empty(),
            error: read_address(atyp, data)->Err_0,
        }),
{
}

/// A whole handshake: a client that offers any methods, with none among them, and then asks
/// to connect to a host, or for an association, is agreed to and understood to ask for that
/// host; and a tunnel is agreed to whatever it asks for.
pub proof fn law_clients_are_served(
    service: Service,
    methods: Seq<u8>,
    cmd: u8,
    reserved: u8,
    host: Seq<char>,
    port: u16,
)
    requires
        methods.len() <= 255,
        methods.contains(0),
        service == Service::Client ==> cmd == 1 || cmd == 3,
        address_bytes(host, port) is Some,
    ensures
        ({
            let greeting = seq![5u8, methods.len() as u8] + methods;
            let request = seq![5u8, cmd, reserved] + address_bytes(host, port)->Some_0;
            let (replies, end) = serve(service, ServerPhase::Greeting, greeting + request);
            &&& replies == seq![5u8, 0u8]
            &&& service == Service::Tunnel ==> end == Some(
                (ServerStepView::Tunnel {
                    reply: seq![5u8, 0u8, 0u8, 1u8, 0u8, 0u8, 0u8, 0u8, 0u8, 0u8],
                }),
            )
            &&& service == Service::Client ==> end == Some(
                (ServerStepView::Accept {
                    command: if cmd == 1 {
                        Command::Connect
                    } else {
                        Command::UdpAssociate
                    },
                    target: TargetView { address: canonical(host), port },
                }),
            )
        }),
{
    let a = address_bytes(host, port)->Some_0;
    law_address_round_trip(host, port, Seq::empty());
    assert(a + Seq::<u8>::empty() =~= a);
    law_address_layout(host, port);
    let command = if service == Service::Tunnel {
        Command::Tunnel
    } else if cmd == 1 {
        Command::Connect
    } else {
        Command::UdpAssociate
    };
    let request = seq![5u8, cmd, reserved] + a;
    lemma_request_served(service, command, cmd, reserved, a);
    lemma_greeting_served(service, methods, request);
    let none = Seq::<u8>::empty();
    let answer = seq![5u8, 0u8];
    assert(answer + none =~= answer);
    law_complete_requests(command, a[0], a);
}

/// A greeting is answered, and what follows it is a request.
proof fn lemma_greeting_served(service: Service, methods: Seq<u8>, request: Seq<u8>)
    requires
        methods.len() <= 255,
        methods.contains(0),
    ensures
        serve(
            service,
            ServerPhase::Greeting,
            seq![5u8, methods.len() as u8] + methods + request,
        ) == ({
            let (rest, end) = serve(service, ServerPhase::Request, request);
            (seq![5u8, 0u8] + rest, end)
        }),
{
    let n = methods.len() as u8;
    let all = seq![5u8, n] + methods + request;
    let none = Seq::<u8>::empty();
    let answer = seq![5u8, 0u8];
    let r1 = all.skip(2);
    assert(all.take(2) =~= seq![5u8, n]);
    assert(r1 =~= methods + request);
    assert(r1.take(n as int) =~= methods);
    assert(r1.skip(n as int) =~= request);
    assert(methods[methods.index_of(0)] == 0);
    law_methods(service, n, methods);
    law_greetings(service, all.take(2));
    lemma_goes_on(service, ServerPhase::Greeting, all, ServerPhase::Methods(n), none);
    lemma_goes_on(service, ServerPhase::Methods(n), r1, ServerPhase::Request, answer);
    let (rest, end) = serve(service, ServerPhase::Request, request);
    assert(none + (answer + rest) =~= answer + rest);
}

/// A request is understood when its address is there.
proof fn lemma_request_served(service: Service, command: Command, cmd: u8, reserved: u8, a: Seq<u8>)
    requires
        service == Service::Tunnel ==> command == Command::Tunnel,
        service == Service::Client ==> (cmd == 1 && command == Command::Connect) || (cmd == 3
            && command == Command::UdpAssociate),
        a.len() >= 2,
        (a[0] == 1 && a.len() == 7) || (a[0] == 4 && a.len() == 19) || (a[0] == 3 && a.len() == 4
            + a[1]),
    ensures
        serve(service, ServerPhase::Request, seq![5u8, cmd, reserved] + a) == (
            Seq::<u8>::empty(),
            Some(addressed(command, a[0], a)),
        ),
{
    let r2 = seq![5u8, cmd, reserved] + a;
    let r3 = r2.skip(4);
    let none = Seq::<u8>::empty();
    let address = ServerPhase::Address { command, atyp: a[0] };
    assert(r2.take(4) =~= seq![5u8, cmd, reserved, a[0]]);
    law_requests(service, r2.take(4));
    assert(r3 =~= a.skip(1));
    lemma_goes_on(service, ServerPhase::Request, r2, address, none);
    lemma_address_served(service, command, a);
    assert(none + none =~= none);
}

proof fn lemma_address_served(service: Service, command: Command, a: Seq<u8>)
    requires
        a.len() >= 2,
        (a[0] == 1 && a.len() == 7) || (a[0] == 4 && a.len() == 19) || (a[0] == 3 && a.len() == 4
            + a[1]),
    ensures
        serve(service, ServerPhase::Address { command, atyp: a[0] }, a.skip(1)) == (
            Seq::<u8>::empty(),
            Some(addressed(command, a[0], a)),
        ),
{
    let address = ServerPhase::Address { command, atyp: a[0] };
    let r3 = a.skip(1);
    let none = Seq::<u8>::empty();
    if a[0] == 3 {
        let len = a[1];
        let name = ServerPhase::Name { command, len };
        assert(r3.take(1) =~= seq![len]);
        let r4 = r3.skip(1);
        lemma_goes_on(service, address, r3, name, none);
        assert(r4.take(len + 2) =~= r4);
        assert(seq![3u8, len] + r4 =~= a);
        assert(none + none =~= none);
    } else {
        assert(r3.take(r3.len() as int) =~= r3);
        assert(seq![a[0]] + r3 =~= a);
    }
}

proof fn lemma_goes_on(
    service: Service,
    phase: ServerPhase,
    bytes: Seq<u8>,
    next: ServerPhase,
    reply: Seq<u8>,
)
    requires
        bytes.len() >= phase.due(),
        server_step(service, phase, bytes.take(phase.due())) == (
            next,
            (ServerStepView::Read { reply }),
        ),
        next.rank() < phase.rank(),
    ensures
        serve(service, phase, bytes) == ({
            let (rest, end) = serve(service, next, bytes.skip(phase.due()));
            (reply + rest, end)
        }),
{
}

/// A reply that names no address, and one that names the address of a relay: by its octets,
/// and the port.
pub proof fn law_replies(rep: u8, addr: SocketAddress)
    ensures
        simple_reply_bytes(rep) == seq![5u8, rep, 0u8, 1u8, 0u8, 0u8, 0u8, 0u8, 0u8, 0u8],
        ({
            let r = reply_bytes(rep, addr);
            let n = addr.ip.octets().len() as int;
            &&& r.len() == 6 + n
            &&& r[0] == 5 && r[1] == rep && r[2] == 0
            &&& r[3] == (if addr.ip is V4 {
                1u8
            } else {
                4u8
            })
            &&& r.subrange(4, 4 + n) == addr.ip.octets()
            &&& 256 * r[4 + n] + r[5 + n] == addr.port
            &&& n == (if addr.ip is V4 {
                4int
            } else {
                16
            })
        }),
{
    let r = reply_bytes(rep, addr);
    let o = addr.ip.octets();
    let n = o.len() as int;
    lemma_be_bytes_len(addr.port as nat, 2);
    lemma_pow256_values();
    lemma_be_round_trip(addr.port as nat, 2);
    assert(r.subrange(4, 4 + n) =~= o);
    assert(seq![r[4 + n], r[5 + n]] =~= be_bytes(addr.port as nat, 2));
    lemma_be_value_2(r[4 + n], r[5 + n]);
    match addr.ip {
        IpAddress::V4(x) => {
            lemma_be_bytes_len(x as nat, 4);
        },
        IpAddress::V6(x) => {
            lemma_be_bytes_len(x as nat, 16);
        },
    }
}

// ── Addresses ─────────────────────────────────────────────────────────

/// How an address stands in a message: the text of an IP address by its octets, any other
/// host by its name, and then the port. A name of more than 255 bytes cannot stand there.
pub proof fn law_address_layout(host: Seq<char>, port: u16)
    ensures
        ({
            let a = address_bytes(host, port)->Some_0;
            let name = encode_utf8(host);
            let n = a.len() as int;
            let fits = ipv4(host) is Some || ipv6(host) is Some || name.len() <= 255;
            &&& address_bytes(host, port) is Some <==> fits
            &&& fits ==> 256 * a[n - 2] + a[n - 1] == port
            &&& ipv4(host) is Some ==> a[0] == 1 && n == 7 && a.subrange(1, 5)
                == ipv4(host)->Some_0
            &&& ipv4(host) is None && ipv6(host) is Some ==> a[0] == 4 && n == 19 && a.subrange(
                1,
                17,
            ) == ipv6(host)->Some_0
            &&& fits && ipv4(host) is None && ipv6(host) is None ==> a[0] == 3 && a[1]
                == name.len() && n == 4 + name.len() && a.subrange(2, n - 2) == name
        }),
{
    if address_bytes(host, port) is Some {
        let a = address_bytes(host, port)->Some_0;
        let n = a.len() as int;
        let p = be_bytes(port as nat, 2);
        lemma_be_bytes_len(port as nat, 2);
        lemma_pow256_values();
        lemma_be_round_trip(port as nat, 2);
        law_address_round_trip(host, port, Seq::empty());
        assert(a + Seq::<u8>::empty() =~= a);
        assert(seq![a[n - 2], a[n - 1]] =~= p);
        lemma_be_value_2(a[n - 2], a[n - 1]);
        if ipv4(host) is Some {
            assert(a.subrange(1, 5) =~= ipv4(host)->Some_0);
        } else if ipv6(host) is Some {
            assert(a.subrange(1, 17) =~= ipv6(host)->Some_0);
        } else {
            assert(a.subrange(2, n - 2) =~= encode_utf8(host));
        }
    }
}

/// What is read from an address: the octets as text, or the name; the port; and how many
/// bytes that were. What is cut short, of an unknown type or not UTF-8 cannot be read.
pub proof fn law_reading_addresses(data: Seq<u8>)
    ensures
        data.len() >= 7 ==> read_address(1, data) == Ok::<(TargetView, int), SocksError>(
            (
                TargetView {
                    address: ipv4_text(data.subrange(1, 5)),
                    port: (256 * data[5] + data[6]) as u16,
                },
                7,
            ),
        ),
        data.len() < 7 ==> read_address(1, data) == Err::<(TargetView, int), SocksError>(
            SocksError::AddressTruncated(1),
        ),
        data.len() >= 19 ==> read_address(4, data) == Ok::<(TargetView, int), SocksError>(
            (
                TargetView {
                    address: ipv6_full_text(data.subrange(1, 17)),
                    port: (256 * data[17] + data[18]) as u16,
                },
                19,
            ),
        ),
        data.len() < 19 ==> read_address(4, data) == Err::<(TargetView, int), SocksError>(
            SocksError::AddressTruncated(4),
        ),
        data.len() < 2 || data.len() < 4 + data[1] ==> read_address(3, data) == Err::<
            (TargetView, int),
            SocksError,
        >(SocksError::AddressTruncated(3)),
        data.len() >= 4 && data.len() >= 4 + data[1] && !valid_utf8(data.subrange(2, 2 + data[1]))
            ==> read_address(3, data) == Err::<(TargetView, int), SocksError>(
            SocksError::HostNotUtf8,
        ),
        data.len() >= 4 && data.len() >= 4 + data[1] && valid_utf8(data.subrange(2, 2 + data[1]))
            ==> read_address(3, data) == Ok::<(TargetView, int), SocksError>(
            (
                TargetView {
                    address: decode_utf8(data.subrange(2, 2 + data[1])),
                    port: (256 * data[2 + data[1]] + data[3 + data[1]]) as u16,
                },
                4 + data[1],
            ),
        ),
{
    if data.len() >= 7 {
        lemma_be_value_2(data[5], data[6]);
    }
    if data.len() >= 19 {
        lemma_be_value_2(data[17], data[18]);
    }
    if data.len() >= 4 && data.len() >= 4 + data[1] {
        lemma_be_value_2(data[2 + data[1]], data[3 + data[1]]);
    }
}

/// An address of another type than these three cannot be read.
pub proof fn law_unknown_addresses(atyp: u8, data: Seq<u8>)
    requires
        atyp != 1 && atyp != 3 && atyp != 4,
    ensures
        read_address(atyp, data) == Err::<(TargetView, int), SocksError>(
            SocksError::UnknownAddressType(atyp),
        ),
{
}

// ── Datagrams ─────────────────────────────────────────────────────────

/// A datagram stands behind two reserved bytes, the fragment number 0 and its address.
pub proof fn law_datagram_layout(address: Seq<u8>, data: Seq<u8>)
    ensures
        ({
            let d = datagram(address, data);
            &&& d.len() == 3 + address.len() + data.len()
            &&& d[0] == 0 && d[1] == 0 && d[2] == 0
            &&& d.subrange(3, 3 + address.len() as int) == address
            &&& d.skip(3 + address.len() as int) == data
        }),
{
    let d = datagram(address, data);
    assert(d.subrange(3, 3 + address.len() as int) =~= address);
    assert(d.skip(3 + address.len() as int) =~= data);
}

/// What is read from a datagram: its address, and all that follows it. One that is too
/// short, a fragment, or without an address that can be read is refused.
pub proof fn law_reading_datagrams(p: Seq<u8>)
    ensures
        p.len() < 4 ==> read_datagram(p) == Err::<(TargetView, Seq<u8>), SocksError>(
            SocksError::DatagramTooShort,
        ),
        p.len() >= 4 && p[2] != 0 ==> read_datagram(p) == Err::<(TargetView, Seq<u8>), SocksError>(
            SocksError::Fragmented,
        ),
        p.len() >= 4 && p[2] == 0 ==> match read_address(p[3], p.skip(3)) {
            Ok((target, n)) => read_datagram(p) == Ok::<(TargetView, Seq<u8>), SocksError>(
                (target, p.skip(3 + n)),
            ),
            Err(e) => read_datagram(p) == Err::<(TargetView, Seq<u8>), SocksError>(e),
        },
{
}

// ── Going through a proxy ─────────────────────────────────────────────

/// What a proxy is asked: first to go without authentication, then to connect to the target.
pub proof fn law_what_a_proxy_is_asked(address: Seq<u8>)
    ensures
        hello_bytes() == seq![5u8, 1u8, 0u8],
        connect_bytes(address) == seq![5u8, 1u8, 0u8] + address,
{
}

/// A proxy that agrees to go without authentication is asked for the target; one that
/// speaks another version or wants another method is given up.
pub proof fn law_answers_to_the_greeting(host: Seq<char>, port: u16, input: Seq<u8>)
    requires
        input.len() == 2,
    ensures
        ({
            let (next, step) = client_step(host, port, ClientPhase::Greeting, input);
            let address = address_bytes(host, port);
            &&& input[0] != 5 ==> step == ClientStepView::Fail(SocksError::ProxyNotSocks5(input[0]))
            &&& input[0] == 5 && input[1] != 0 ==> step == ClientStepView::Fail(
                SocksError::ProxyAuth(input[1]),
            )
            &&& input[0] == 5 && input[1] == 0 && address is Some ==> next == ClientPhase::Reply
                && step == (ClientStepView::Read { request: connect_bytes(address->Some_0) })
            &&& input[0] == 5 && input[1] == 0 && address is None ==> step == ClientStepView::Fail(
                SocksError::HostTooLong(encode_utf8(host).len() as usize),
            )
        }),
{
}

/// A proxy that reports success is heard to the end of the address that it is bound to,
/// whatever that is, and then leads to the target. Any other report gives the proxy up.
pub proof fn law_answers_to_the_request(host: Seq<char>, port: u16, input: Seq<u8>, n: u8)
    requires
        input.len() == 4,
    ensures
        ({
            let (next, step) = client_step(host, port, ClientPhase::Reply, input);
            let good = input[0] == 5 && input[1] == 0;
            let more = ClientStepView::Read { request: Seq::empty() };
            &&& input[0] != 5 ==> step == ClientStepView::Fail(SocksError::BadReplyVersion)
            &&& input[0] == 5 && input[1] != 0 ==> step == ClientStepView::Fail(
                SocksError::ConnectFailed(input[1]),
            )
            &&& good && input[3] == 1 ==> next == ClientPhase::Bound(6) && step == more
            &&& good && input[3] == 4 ==> next == ClientPhase::Bound(18) && step == more
            &&& good && input[3] == 3 ==> next == ClientPhase::NameLen && step == more
            &&& good && input[3] != 1 && input[3] != 3 && input[3] != 4 ==> step
                == ClientStepView::Fail(SocksError::UnknownAddressType(input[3]))
            &&& client_step(host, port, ClientPhase::NameLen, seq![n]) == (
                ClientPhase::Bound((n + 2) as u16),
                more,
            )
        }),
{
}

/// When the address that a proxy is bound to has been read, the stream leads to the target.
pub proof fn law_the_proxy_leads_to_the_target(host: Seq<char>, port: u16, n: u16, input: Seq<u8>)
    ensures
        client_step(host, port, ClientPhase::Bound(n), input).1 == ClientStepView::Done,
{
}

/// The command of a request.
pub proof fn law_commands(cmd: u8)
    ensures
        command_of(Service::Tunnel, cmd) == Some(Command::Tunnel),
        command_of(Service::Client, 1) == Some(Command::Connect),
        command_of(Service::Client, 3) == Some(Command::UdpAssociate),
        cmd != 1 && cmd != 3 ==> command_of(Service::Client, cmd) is None,
{
}

/// A host comes out of a message as it went in, but for an IPv6 address, which is written
/// out in full.
pub proof fn law_hosts_come_back(host: Seq<char>)
    ensures
        ipv4(host) is Some || ipv6(host) is None ==> canonical(host) == host,
        ipv4(host) is None && ipv6(host) is Some ==> canonical(host) == ipv6_full_text(
            ipv6(host)->Some_0,
        ),
{
}

} // verus!
