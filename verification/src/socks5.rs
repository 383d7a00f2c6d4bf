//! SOCKS5 messages and handshakes, without authentication.
//!
//! A handshake is a state machine: it says how many bytes to read next, takes them
//! in, and says what to write.

use crate::addr::{
    ipv4, ipv4_text, ipv6, ipv6_full_text, law_ipv4_text, law_ipv6_full_text,
    lemma_ipv4_text_ascii, lemma_ipv6_full_text_ascii, parse_ipv4, parse_ipv6, push_ipv4,
    push_ipv6_full, SocketAddress,
};
use crate::buf::{
    buffer_freeze, buffer_put_slice, buffer_put_u16, buffer_put_u8, buffer_with_capacity,
    bytes_content, bytes_mut_content, MAX_BUFFER,
};
use crate::text::{ascii_string, chars_of, string_from_utf8};
use crate::wire::{
    be_bytes, be_u16, be_value, lemma_be_bytes_len, lemma_be_round_trip, lemma_pow256_values,
};
use bytes::Bytes;
use vstd::prelude::*;
use vstd::slice::{slice_subrange, slice_to_vec};
use vstd::utf8::{decode_utf8, encode_utf8, valid_utf8};

verus! {

pub const SOCKS_VERSION: u8 = 0x05;

pub const AUTH_NONE: u8 = 0x00;

pub const NO_ACCEPTABLE_AUTH: u8 = 0xff;

pub const CMD_CONNECT: u8 = 0x01;

pub const CMD_UDP_ASSOCIATE: u8 = 0x03;

pub const ATYP_IPV4: u8 = 0x01;

pub const ATYP_DOMAIN: u8 = 0x03;

pub const ATYP_IPV6: u8 = 0x04;

pub const REP_SUCCESS: u8 = 0x00;

pub const REP_GENERAL_FAILURE: u8 = 0x01;

pub const REP_CMD_NOT_SUPPORTED: u8 = 0x07;

/// Why a message could not be written, read or agreed to.
#[derive(Debug, Clone, Copy, PartialEq, Eq, Structural)]
pub enum SocksError {
    /// A host name, of this length in bytes, does not fit its length field.
    HostTooLong(usize),
    /// A host name is not UTF-8.
    HostNotUtf8,
    /// An address has this unknown type.
    UnknownAddressType(u8),
    /// The client speaks this other version.
    NotSocks5(u8),
    /// The client does not offer to go without authentication.
    AuthRequired,
    /// A request has another version than the greeting.
    BadRequestVersion,
    /// The client asks for this unknown command.
    UnknownCommand(u8),
    /// The proxy speaks this other version.
    ProxyNotSocks5(u8),
    /// The proxy asks for this authentication method.
    ProxyAuth(u8),
    /// A reply has another version than the greeting.
    BadReplyVersion,
    /// The proxy could not connect, for this reason.
    ConnectFailed(u8),
    /// A datagram ends before its fixed part.
    DatagramTooShort,
    /// A datagram is a fragment.
    Fragmented,
    /// A datagram ends inside an address of this type.
    AddressTruncated(u8),
}

/// A host, by name or in text form, and a port.
#[derive(Debug)]
pub struct TargetAddr {
    pub address: String,
    pub port: u16,
}

impl Clone for TargetAddr {
    fn clone(&self) -> (r: Self)
        ensures
            r@ == self@,
    {
        TargetAddr { address: self.address.clone(), port: self.port }
    }
}

/// A [`TargetAddr`] as mathematical values.
#[verifier::ext_equal]
pub struct TargetView {
    pub address: Seq<char>,
    pub port: u16,
}

impl View for TargetAddr {
    type V = TargetView;

    open spec fn view(&self) -> TargetView {
        TargetView { address: self.address@, port: self.port }
    }
}

// ── Addresses ─────────────────────────────────────────────────────────

/// A host and a port as a message holds them: by octets where the host is the text of
/// an IP address, and else by name. A name that is too long has no such form.
pub open spec fn address_bytes(host: Seq<char>, port: u16) -> Option<Seq<u8>> {
    let name = encode_utf8(host);
    let p = be_bytes(port as nat, 2);
    if ipv4(host) is Some {
        Some(seq![ATYP_IPV4] + ipv4(host)->Some_0 + p)
    } else if ipv6(host) is Some {
        Some(seq![ATYP_IPV6] + ipv6(host)->Some_0 + p)
    } else if name.len() <= 255 {
        Some(seq![ATYP_DOMAIN, name.len() as u8] + name + p)
    } else {
        None
    }
}

/// Appends a port.
fn push_port(out: &mut Vec<u8>, port: u16)
    ensures
        final(out)@ == old(out)@ + be_bytes(port as nat, 2),
{
    out.push((port / 256) as u8);
    out.push((port % 256) as u8);
    proof {
        reveal_with_fuel(be_bytes, 3);
        assert(out@ =~= old(out)@ + be_bytes(port as nat, 2));
    }
}

/// Writes a host and a port as a message holds them.
pub fn encode_address(host: &str, port: u16) -> (r: Result<Vec<u8>, SocksError>)
    ensures
        r is Ok <==> address_bytes(host@, port) is Some,
        r is Ok ==> r->Ok_0@ == address_bytes(host@, port)->Some_0,
        r is Ok ==> r->Ok_0@.len() <= 259,
        r is Err ==> r->Err_0 == SocksError::HostTooLong(encode_utf8(host@).len() as usize),
{
    let chars = chars_of(host);
    let mut v: Vec<u8> = Vec::new();
    proof {
        lemma_be_bytes_len(port as nat, 2);
    }
    match parse_ipv4(&chars) {
        Some(octets) => {
            let mut octets = octets;
            v.push(ATYP_IPV4);
            v.append(&mut octets);
            push_port(&mut v, port);
            assert(v@ =~= address_bytes(host@, port)->Some_0);
            return Ok(v);
        },
        None => {},
    }
    match parse_ipv6(&chars) {
        Some(octets) => {
            let mut octets = octets;
            v.push(ATYP_IPV6);
            v.append(&mut octets);
            push_port(&mut v, port);
            assert(v@ =~= address_bytes(host@, port)->Some_0);
            return Ok(v);
        },
        None => {},
    }
    let name: &[u8] = host.as_bytes();
    let n: usize = name.len();
    if n > 255 {
        return Err(SocksError::HostTooLong(n));
    }
    v.push(ATYP_DOMAIN);
    v.push(n as u8);
    v.extend_from_slice(name);
    push_port(&mut v, port);
    assert(v@ =~= address_bytes(host@, port)->Some_0);
    Ok(v)
}

/// The number in two bytes of a message.
pub open spec fn port_at(s: Seq<u8>, i: int) -> u16 {
    be_value(seq![s[i], s[i + 1]]) as u16
}

/// Reading an address of type `atyp`. `data` begins with the byte that holds the
/// type. Gives the host, the port and how many bytes were read.
pub open spec fn read_address(atyp: u8, data: Seq<u8>) -> Result<(TargetView, int), SocksError> {
    if atyp == ATYP_IPV4 {
        if data.len() < 7 {
            Err(SocksError::AddressTruncated(atyp))
        } else {
            Ok((TargetView { address: ipv4_text(data.subrange(1, 5)), port: port_at(data, 5) }, 7))
        }
    } else if atyp == ATYP_DOMAIN {
        let n = data[1] as int;
        if data.len() < 2 || data.len() < 4 + n {
            Err(SocksError::AddressTruncated(atyp))
        } else if !valid_utf8(data.subrange(2, 2 + n)) {
            Err(SocksError::HostNotUtf8)
        } else {
            Ok(
                (
                    TargetView {
                        address: decode_utf8(data.subrange(2, 2 + n)),
                        port: port_at(data, 2 + n),
                    },
                    4 + n,
                ),
            )
        }
    } else if atyp == ATYP_IPV6 {
        if data.len() < 19 {
            Err(SocksError::AddressTruncated(atyp))
        } else {
            Ok(
                (
                    TargetView {
                        address: ipv6_full_text(data.subrange(1, 17)),
                        port: port_at(data, 17),
                    },
                    19,
                ),
            )
        }
    } else {
        Err(SocksError::UnknownAddressType(atyp))
    }
}

/// The dotted text of four octets.
fn ipv4_string(octets: &[u8]) -> (r: String)
    requires
        octets@.len() == 4,
    ensures
        r@ == ipv4_text(octets@),
{
    let mut out: Vec<char> = Vec::new();
    push_ipv4(&mut out, octets);
    assert(out@ =~= ipv4_text(octets@));
    proof {
        lemma_ipv4_text_ascii(octets@);
    }
    ascii_string(&out)
}

/// The IPv6 text of sixteen octets.
fn ipv6_string(octets: &[u8]) -> (r: String)
    requires
        octets@.len() == 16,
    ensures
        r@ == ipv6_full_text(octets@),
{
    let mut out: Vec<char> = Vec::new();
    push_ipv6_full(&mut out, octets);
    assert(out@ =~= ipv6_full_text(octets@));
    proof {
        lemma_ipv6_full_text_ascii(octets@);
    }
    ascii_string(&out)
}

/// Reads an address of type `atyp` in a datagram. `data` begins with the byte that
/// holds the type. Returns the host, the port and how many bytes were read.
pub fn parse_udp_address(atyp: u8, data: &[u8]) -> (r: Result<(String, u16, usize), SocksError>)
    ensures
        r is Ok <==> read_address(atyp, data@) is Ok,
        r is Ok ==> {
            let (want, n) = read_address(atyp, data@)->Ok_0;
            r->Ok_0.0@ == want.address && r->Ok_0.1 == want.port && r->Ok_0.2 == n && n
                <= data@.len()
        },
        r is Err ==> r->Err_0 == read_address(atyp, data@)->Err_0,
{
    if atyp == ATYP_IPV4 {
        if data.len() < 7 {
            return Err(SocksError::AddressTruncated(atyp));
        }
        let host = ipv4_string(slice_subrange(data, 1, 5));
        Ok((host, be_u16(data[5], data[6]), 7))
    } else if atyp == ATYP_DOMAIN {
        if data.len() < 2 {
            return Err(SocksError::AddressTruncated(atyp));
        }
        let n: usize = data[1] as usize;
        if data.len() < 4 + n {
            return Err(SocksError::AddressTruncated(atyp));
        }
        match string_from_utf8(slice_to_vec(slice_subrange(data, 2, 2 + n))) {
            Some(host) => Ok((host, be_u16(data[2 + n], data[3 + n]), 4 + n)),
            None => Err(SocksError::HostNotUtf8),
        }
    } else if atyp == ATYP_IPV6 {
        if data.len() < 19 {
            return Err(SocksError::AddressTruncated(atyp));
        }
        let host = ipv6_string(slice_subrange(data, 1, 17));
        Ok((host, be_u16(data[17], data[18]), 19))
    } else {
        Err(SocksError::UnknownAddressType(atyp))
    }
}

// ── UDP datagrams ─────────────────────────────────────────────────────

/// A wrapped datagram: two reserved bytes, fragment number 0, address, data.
pub open spec fn datagram(address: Seq<u8>, data: Seq<u8>) -> Seq<u8> {
    seq![0u8, 0u8, 0u8] + address + data
}

/// Wraps a datagram with the address it goes to or comes from.
pub fn encode_udp_datagram(target: &TargetAddr, data: &[u8]) -> (r: Result<Bytes, SocksError>)
    requires
        data@.len() + 262 <= MAX_BUFFER,
    ensures
        r is Ok <==> address_bytes(target@.address, target@.port) is Some,
        r is Ok ==> bytes_content(r->Ok_0) == datagram(
            address_bytes(target@.address, target@.port)->Some_0,
            data@,
        ),
        r is Err ==> r->Err_0 == SocksError::HostTooLong(
            encode_utf8(target@.address).len() as usize,
        ),
{
    let addr = match encode_address(target.address.as_str(), target.port) {
        Ok(addr) => addr,
        Err(e) => {
            return Err(e);
        },
    };
    let mut buf = buffer_with_capacity(3 + addr.len() + data.len());
    proof {
        lemma_be_bytes_len(0, 2);
    }
    buffer_put_u16(&mut buf, 0);
    buffer_put_u8(&mut buf, 0);
    buffer_put_slice(&mut buf, addr.as_slice());
    buffer_put_slice(&mut buf, data);
    proof {
        reveal_with_fuel(be_bytes, 3);
        assert(be_bytes(0, 2) =~= seq![0u8, 0u8]);
        assert(bytes_mut_content(buf) =~= datagram(addr@, data@));
    }
    Ok(buffer_freeze(buf))
}

/// Unwrapping a datagram. The reserved bytes are not looked at.
pub open spec fn read_datagram(p: Seq<u8>) -> Result<(TargetView, Seq<u8>), SocksError> {
    if p.len() < 4 {
        Err(SocksError::DatagramTooShort)
    } else if p[2] != 0 {
        Err(SocksError::Fragmented)
    } else {
        match read_address(p[3], p.skip(3)) {
            Ok((target, n)) => Ok((target, p.skip(3 + n))),
            Err(e) => Err(e),
        }
    }
}

/// Unwraps a datagram: the address it goes to or comes from, and its data.
pub fn decode_udp_datagram(payload: &[u8]) -> (r: Result<(TargetAddr, Bytes), SocksError>)
    ensures
        r is Ok <==> read_datagram(payload@) is Ok,
        r is Ok ==> {
            let (target, data) = read_datagram(payload@)->Ok_0;
            r->Ok_0.0@ == target && bytes_content(r->Ok_0.1) == data
        },
        r is Err ==> r->Err_0 == read_datagram(payload@)->Err_0,
{
    let len: usize = payload.len();
    if len < 4 {
        return Err(SocksError::DatagramTooShort);
    }
    if payload[2] != 0 {
        return Err(SocksError::Fragmented);
    }
    let rest = slice_subrange(payload, 3, len);
    assert(rest@ =~= payload@.skip(3));
    match parse_udp_address(payload[3], rest) {
        Ok((address, port, n)) => {
            let data = slice_subrange(payload, 3 + n, len);
            assert(data@ =~= payload@.skip(3 + n));
            Ok((TargetAddr { address, port }, Bytes::copy_from_slice(data)))
        },
        Err(e) => Err(e),
    }
}

/// How a host reads once it has been through a message: an IPv6 address is written
/// out in full.
pub open spec fn canonical(host: Seq<char>) -> Seq<char> {
    if ipv4(host) is None && ipv6(host) is Some {
        ipv6_full_text(ipv6(host)->Some_0)
    } else {
        host
    }
}

/// The four octets of a dotted text are four.
proof fn lemma_address_lens(host: Seq<char>)
    ensures
        ipv4(host) is Some ==> ipv4(host)->Some_0.len() == 4,
        ipv6(host) is Some ==> ipv6(host)->Some_0.len() == 16,
{
    let at = crate::addr::colons(host, 0);
}

/// A host and a port are read back from a message, whatever follows them. Only an
/// IPv6 address may read differently, and stands for the same octets.
pub proof fn law_address_round_trip(host: Seq<char>, port: u16, rest: Seq<u8>)
    requires
        address_bytes(host, port) is Some,
    ensures
        ({
            let a = address_bytes(host, port)->Some_0;
            &&& a.len() >= 4
            &&& read_address(a[0], a + rest) == Ok::<(TargetView, int), SocksError>(
                (TargetView { address: canonical(host), port }, a.len() as int),
            )
        }),
        address_bytes(canonical(host), port) == address_bytes(host, port),
{
    let a = address_bytes(host, port)->Some_0;
    let s = a + rest;
    let p = be_bytes(port as nat, 2);
    lemma_be_bytes_len(port as nat, 2);
    lemma_pow256_values();
    lemma_be_round_trip(port as nat, 2);
    lemma_address_lens(host);
    assert(p =~= seq![p[0], p[1]]);
    if ipv4(host) is Some {
        let o = ipv4(host)->Some_0;
        law_ipv4_text(o, host);
        assert(s.subrange(1, 5) =~= o);
        assert(seq![s[5], s[6]] =~= p);
    } else if ipv6(host) is Some {
        let o = ipv6(host)->Some_0;
        law_ipv6_full_text(o);
        assert(s.subrange(1, 17) =~= o);
        assert(seq![s[17], s[18]] =~= p);
        lemma_full_text_not_ipv4(o);
    } else {
        let name = encode_utf8(host);
        let n = name.len() as int;
        assert(s.subrange(2, 2 + n) =~= name);
        assert(seq![s[2 + n], s[3 + n]] =~= p);
        vstd::utf8::encode_utf8_valid_utf8(host);
        vstd::utf8::encode_utf8_decode_utf8(host);
    }
}

/// An IPv6 text is not a dotted IPv4 text.
proof fn lemma_full_text_not_ipv4(octets: Seq<u8>)
    requires
        octets.len() == 16,
    ensures
        ipv4(ipv6_full_text(octets)) is None,
{
    let s = ipv6_full_text(octets);
    crate::addr::lemma_full_text_has_no_dot(octets);
    crate::text::lemma_split_plain(s, '.');
}

/// What is wrapped in a datagram is unwrapped from it, whatever the data, for every host
/// that is the text of an IP address or a name of at most 255 bytes. The host comes back
/// as it was, but for an IPv6 address, which is written out in full.
pub proof fn law_datagram_round_trip(host: Seq<char>, port: u16, data: Seq<u8>)
    requires
        ipv4(host) is Some || ipv6(host) is Some || encode_utf8(host).len() <= 255,
    ensures
        address_bytes(host, port) is Some,
        canonical(host) == (if ipv4(host) is None && ipv6(host) is Some {
            ipv6_full_text(ipv6(host)->Some_0)
        } else {
            host
        }),
        read_datagram(datagram(address_bytes(host, port)->Some_0, data)) == Ok::<
            (TargetView, Seq<u8>),
            SocksError,
        >((TargetView { address: canonical(host), port }, data)),
{
    let a = address_bytes(host, port)->Some_0;
    let p = datagram(a, data);
    law_address_round_trip(host, port, data);
    assert(p.skip(3) =~= a + data);
    assert(p[3] == a[0]);
    assert(p.skip(3 + a.len() as int) =~= data);
}

// ── Serving a client ──────────────────────────────────────────────────

/// A reply that names no address.
pub open spec fn simple_reply_bytes(rep: u8) -> Seq<u8> {
    seq![SOCKS_VERSION, rep, 0u8, ATYP_IPV4, 0u8, 0u8, 0u8, 0u8, 0u8, 0u8]
}

/// A reply that names no address.
pub fn simple_reply(rep: u8) -> (r: Vec<u8>)
    ensures
        r@ == simple_reply_bytes(rep),
{
    let r: Vec<u8> = vec![SOCKS_VERSION, rep, 0, ATYP_IPV4, 0, 0, 0, 0, 0, 0];
    assert(r@ =~= simple_reply_bytes(rep));
    r
}

/// A reply that names the address of a relay.
pub open spec fn reply_bytes(rep: u8, addr: SocketAddress) -> Seq<u8> {
    seq![
        SOCKS_VERSION,
        rep,
        0u8,
        if addr.ip is V4 {
            ATYP_IPV4
        } else {
            ATYP_IPV6
        },
    ] + addr.ip.octets() + be_bytes(addr.port as nat, 2)
}

/// Writes a reply that names the address of a relay.
pub fn encode_reply(rep: u8, addr: SocketAddress) -> (r: Vec<u8>)
    ensures
        r@ == reply_bytes(rep, addr),
{
    let mut v: Vec<u8> = vec![SOCKS_VERSION, rep, 0];
    match addr.ip {
        crate::addr::IpAddress::V4(_) => {
            v.push(ATYP_IPV4);
        },
        crate::addr::IpAddress::V6(_) => {
            v.push(ATYP_IPV6);
        },
    }
    let mut octets = addr.ip.to_octets();
    v.append(&mut octets);
    push_port(&mut v, addr.port);
    assert(v@ =~= reply_bytes(rep, addr));
    v
}

/// Whom a handshake serves.
#[derive(Debug, Clone, Copy, PartialEq, Eq, Structural)]
pub enum Service {
    /// A client that asks for a connection or an association.
    Client,
    /// A tunnel: whatever is asked for is agreed to.
    Tunnel,
}

/// What is asked for.
#[derive(Debug, Clone, Copy, PartialEq, Eq, Structural)]
pub enum Command {
    Connect,
    UdpAssociate,
    Tunnel,
}

/// How far a handshake with a client has come.
#[derive(Debug, Clone, Copy, PartialEq, Eq, Structural)]
pub enum ServerPhase {
    /// The version and the number of methods are due.
    Greeting,
    /// This many methods are due.
    Methods(u8),
    /// The request is due, up to the type of its address.
    Request,
    /// An address of this type is due; of a name, its length.
    Address { command: Command, atyp: u8 },
    /// A name of this length is due, and the port.
    Name { command: Command, len: u8 },
}

impl ServerPhase {
    /// How many bytes are due.
    pub open spec fn due(self) -> int {
        match self {
            ServerPhase::Greeting => 2,
            ServerPhase::Methods(n) => n as int,
            ServerPhase::Request => 4,
            ServerPhase::Address { command, atyp } => if atyp == ATYP_IPV4 {
                6
            } else if atyp == ATYP_IPV6 {
                18
            } else {
                1
            },
            ServerPhase::Name { command, len } => len as int + 2,
        }
    }

    /// How many steps are left at most.
    pub open spec fn rank(self) -> nat {
        match self {
            ServerPhase::Greeting => 4,
            ServerPhase::Methods(_) => 3,
            ServerPhase::Request => 2,
            ServerPhase::Address { .. } => 1,
            ServerPhase::Name { .. } => 0,
        }
    }
}

/// What to do after a step of a handshake with a client.
#[derive(Debug)]
pub enum ServerStep {
    /// Write the reply, which may be empty, and read what is due.
    Read { reply: Vec<u8> },
    /// The client asks for `command` on a target. Success is not replied yet.
    Accept { command: Command, target: TargetAddr },
    /// A tunnel is agreed to: write the reply.
    Tunnel { reply: Vec<u8> },
    /// Write the reply, which may be empty, and give up.
    Refuse { reply: Vec<u8>, error: SocksError },
}

/// A [`ServerStep`] as mathematical values.
#[verifier::ext_equal]
pub enum ServerStepView {
    Read { reply: Seq<u8> },
    Accept { command: Command, target: TargetView },
    Tunnel { reply: Seq<u8> },
    Refuse { reply: Seq<u8>, error: SocksError },
}

impl View for ServerStep {
    type V = ServerStepView;

    open spec fn view(&self) -> ServerStepView {
        match *self {
            ServerStep::Read { reply } => ServerStepView::Read { reply: reply@ },
            ServerStep::Accept { command, target } => ServerStepView::Accept {
                command,
                target: target@,
            },
            ServerStep::Tunnel { reply } => ServerStepView::Tunnel { reply: reply@ },
            ServerStep::Refuse { reply, error } => ServerStepView::Refuse { reply: reply@, error },
        }
    }
}

/// What follows when a whole address has been read: the request is complete. A tunnel
/// is agreed to whatever the address says.
pub open spec fn addressed(command: Command, atyp: u8, data: Seq<u8>) -> ServerStepView {
    if command == Command::Tunnel {
        ServerStepView::Tunnel { reply: simple_reply_bytes(REP_SUCCESS) }
    } else {
        match read_address(atyp, data) {
            Ok((target, n)) => ServerStepView::Accept { command, target },
            Err(error) => ServerStepView::Refuse { reply: Seq::empty(), error },
        }
    }
}

/// The command that a request asks for, if it is known.
pub open spec fn command_of(service: Service, cmd: u8) -> Option<Command> {
    if service == Service::Tunnel {
        Some(Command::Tunnel)
    } else if cmd == CMD_CONNECT {
        Some(Command::Connect)
    } else if cmd == CMD_UDP_ASSOCIATE {
        Some(Command::UdpAssociate)
    } else {
        None
    }
}

/// One step of a handshake with a client, on the bytes that were due.
pub open spec fn server_step(service: Service, phase: ServerPhase, input: Seq<u8>) -> (
    ServerPhase,
    ServerStepView,
) {
    match phase {
        ServerPhase::Greeting => if input[0] != SOCKS_VERSION {
            (
                phase,
                ServerStepView::Refuse {
                    reply: Seq::empty(),
                    error: SocksError::NotSocks5(input[0]),
                },
            )
        } else {
            (ServerPhase::Methods(input[1]), ServerStepView::Read { reply: Seq::empty() })
        },
        ServerPhase::Methods(_) => if input.contains(AUTH_NONE) {
            (
                ServerPhase::Request,
                ServerStepView::Read { reply: seq![SOCKS_VERSION, AUTH_NONE] },
            )
        } else {
            (
                phase,
                ServerStepView::Refuse {
                    reply: seq![SOCKS_VERSION, NO_ACCEPTABLE_AUTH],
                    error: SocksError::AuthRequired,
                },
            )
        },
        ServerPhase::Request => if input[0] != SOCKS_VERSION {
            (
                phase,
                ServerStepView::Refuse {
                    reply: Seq::empty(),
                    error: SocksError::BadRequestVersion,
                },
            )
        } else {
            let atyp = input[3];
            match command_of(service, input[1]) {
                None => (
                    phase,
                    ServerStepView::Refuse {
                        reply: simple_reply_bytes(REP_CMD_NOT_SUPPORTED),
                        error: SocksError::UnknownCommand(input[1]),
                    },
                ),
                Some(command) => if atyp == ATYP_IPV4 || atyp == ATYP_DOMAIN || atyp == ATYP_IPV6 {
                    (
                        ServerPhase::Address { command, atyp },
                        ServerStepView::Read { reply: Seq::empty() },
                    )
                } else {
                    (
                        phase,
                        ServerStepView::Refuse {
                            reply: Seq::empty(),
                            error: SocksError::UnknownAddressType(atyp),
                        },
                    )
                },
            }
        },
        ServerPhase::Address { command, atyp } => if atyp == ATYP_DOMAIN {
            (
                ServerPhase::Name { command, len: input[0] },
                ServerStepView::Read { reply: Seq::empty() },
            )
        } else {
            (phase, addressed(command, atyp, seq![atyp] + input))
        },
        ServerPhase::Name { command, len } => (
            phase,
            addressed(command, ATYP_DOMAIN, seq![ATYP_DOMAIN, len] + input),
        ),
    }
}

/// A handshake with a client.
pub struct ServerHandshake {
    service: Service,
    phase: ServerPhase,
}

impl ServerHandshake {
    pub closed spec fn service(&self) -> Service {
        self.service
    }

    pub closed spec fn phase(&self) -> ServerPhase {
        self.phase
    }

    /// A handshake that has not begun.
    pub fn new(service: Service) -> (r: Self)
        ensures
            r.service() == service,
            r.phase() == ServerPhase::Greeting,
    {
        ServerHandshake { service, phase: ServerPhase::Greeting }
    }

    /// How many bytes to read next, exactly.
    pub fn due(&self) -> (r: usize)
        ensures
            r == self.phase().due(),
    {
        match self.phase {
            ServerPhase::Greeting => 2,
            ServerPhase::Methods(n) => n as usize,
            ServerPhase::Request => 4,
            ServerPhase::Address { command: _, atyp } => if atyp == ATYP_IPV4 {
                6
            } else if atyp == ATYP_IPV6 {
                18
            } else {
                1
            },
            ServerPhase::Name { command: _, len } => len as usize + 2,
        }
    }

    /// Takes in the bytes that were due.
    pub fn step(&mut self, input: &[u8]) -> (r: ServerStep)
        requires
            input@.len() == old(self).phase().due(),
        ensures
            final(self).service() == old(self).service(),
            (final(self).phase(), r@) == server_step(
                old(self).service(),
                old(self).phase(),
                input@,
            ),
    {
        let nothing: Vec<u8> = Vec::new();
        assert(nothing@ =~= Seq::empty());
        match self.phase {
            ServerPhase::Greeting => {
                if input[0] != SOCKS_VERSION {
                    return ServerStep::Refuse {
                        reply: nothing,
                        error: SocksError::NotSocks5(input[0]),
                    };
                }
                self.phase = ServerPhase::Methods(input[1]);
                ServerStep::Read { reply: nothing }
            },
            ServerPhase::Methods(_) => {
                if offers_no_auth(input) {
                    self.phase = ServerPhase::Request;
                    let reply: Vec<u8> = vec![SOCKS_VERSION, AUTH_NONE];
                    assert(reply@ =~= seq![SOCKS_VERSION, AUTH_NONE]);
                    return ServerStep::Read { reply };
                }
                let reply: Vec<u8> = vec![SOCKS_VERSION, NO_ACCEPTABLE_AUTH];
                assert(reply@ =~= seq![SOCKS_VERSION, NO_ACCEPTABLE_AUTH]);
                ServerStep::Refuse { reply, error: SocksError::AuthRequired }
            },
            ServerPhase::Request => {
                if input[0] != SOCKS_VERSION {
                    return ServerStep::Refuse {
                        reply: nothing,
                        error: SocksError::BadRequestVersion,
                    };
                }
                let atyp: u8 = input[3];
                let command: Command = if self.service == Service::Tunnel {
                    Command::Tunnel
                } else if input[1] == CMD_CONNECT {
                    Command::Connect
                } else if input[1] == CMD_UDP_ASSOCIATE {
                    Command::UdpAssociate
                } else {
                    return ServerStep::Refuse {
                        reply: simple_reply(REP_CMD_NOT_SUPPORTED),
                        error: SocksError::UnknownCommand(input[1]),
                    };
                };
                if atyp != ATYP_IPV4 && atyp != ATYP_DOMAIN && atyp != ATYP_IPV6 {
                    return ServerStep::Refuse {
                        reply: nothing,
                        error: SocksError::UnknownAddressType(atyp),
                    };
                }
                self.phase = ServerPhase::Address { command, atyp };
                ServerStep::Read { reply: nothing }
            },
            ServerPhase::Address { command, atyp } => {
                if atyp == ATYP_DOMAIN {
                    self.phase = ServerPhase::Name { command, len: input[0] };
                    return ServerStep::Read { reply: nothing };
                }
                let mut data: Vec<u8> = vec![atyp];
                data.extend_from_slice(input);
                assert(data@ =~= seq![atyp] + input@);
                complete_request(command, atyp, data.as_slice())
            },
            ServerPhase::Name { command, len } => {
                let mut data: Vec<u8> = vec![ATYP_DOMAIN, len];
                data.extend_from_slice(input);
                assert(data@ =~= seq![ATYP_DOMAIN, len] + input@);
                complete_request(command, ATYP_DOMAIN, data.as_slice())
            },
        }
    }
}

/// Whether a list of methods offers to go without authentication.
fn offers_no_auth(methods: &[u8]) -> (r: bool)
    ensures
        r == methods@.contains(AUTH_NONE),
{
    let mut i: usize = 0;
    while i < methods.len()
        invariant
            i <= methods@.len(),
            forall|j: int| 0 <= j < i ==> #[trigger] methods@[j] != AUTH_NONE,
        decreases methods.len() - i,
    {
        if methods[i] == AUTH_NONE {
            return true;
        }
        i = i + 1;
    }
    false
}

/// Ends a handshake whose address has been read.
fn complete_request(command: Command, atyp: u8, data: &[u8]) -> (r: ServerStep)
    ensures
        r@ == addressed(command, atyp, data@),
{
    if command == Command::Tunnel {
        return ServerStep::Tunnel { reply: simple_reply(REP_SUCCESS) };
    }
    match parse_udp_address(atyp, data) {
        Ok((address, port, _)) => ServerStep::Accept {
            command,
            target: TargetAddr { address, port },
        },
        Err(error) => {
            let reply: Vec<u8> = Vec::new();
            assert(reply@ =~= Seq::empty());
            ServerStep::Refuse { reply, error }
        },
    }
}

// ── Connecting through a proxy ────────────────────────────────────────

/// What a client writes first: it offers to go without authentication.
pub open spec fn hello_bytes() -> Seq<u8> {
    seq![SOCKS_VERSION, 1u8, AUTH_NONE]
}

/// How far a handshake with a proxy has come.
#[derive(Debug, Clone, Copy, PartialEq, Eq, Structural)]
pub enum ClientPhase {
    /// The answer to the greeting is due.
    Greeting,
    /// The reply is due, up to the type of its address.
    Reply,
    /// The length of the name that the proxy is bound to is due.
    NameLen,
    /// This many bytes of the address that the proxy is bound to are due.
    Bound(u16),
}

impl ClientPhase {
    /// How many bytes are due.
    pub open spec fn due(self) -> int {
        match self {
            ClientPhase::Greeting => 2,
            ClientPhase::Reply => 4,
            ClientPhase::NameLen => 1,
            ClientPhase::Bound(n) => n as int,
        }
    }
}

/// What to do after a step of a handshake with a proxy.
#[derive(Debug)]
pub enum ClientStep {
    /// Write the request, which may be empty, and read what is due.
    Read { request: Vec<u8> },
    /// The stream now leads to the target.
    Done,
    /// Give up.
    Fail(SocksError),
}

/// A [`ClientStep`] as mathematical values.
#[verifier::ext_equal]
pub enum ClientStepView {
    Read { request: Seq<u8> },
    Done,
    Fail(SocksError),
}

impl View for ClientStep {
    type V = ClientStepView;

    open spec fn view(&self) -> ClientStepView {
        match *self {
            ClientStep::Read { request } => ClientStepView::Read { request: request@ },
            ClientStep::Done => ClientStepView::Done,
            ClientStep::Fail(e) => ClientStepView::Fail(e),
        }
    }
}

/// A request to connect.
pub open spec fn connect_bytes(address: Seq<u8>) -> Seq<u8> {
    seq![SOCKS_VERSION, CMD_CONNECT, 0u8] + address
}

/// One step of a handshake with a proxy, on the bytes that were due.
pub open spec fn client_step(host: Seq<char>, port: u16, phase: ClientPhase, input: Seq<u8>) -> (
    ClientPhase,
    ClientStepView,
) {
    match phase {
        ClientPhase::Greeting => if input[0] != SOCKS_VERSION {
            (phase, ClientStepView::Fail(SocksError::ProxyNotSocks5(input[0])))
        } else if input[1] != AUTH_NONE {
            (phase, ClientStepView::Fail(SocksError::ProxyAuth(input[1])))
        } else {
            match address_bytes(host, port) {
                Some(address) => (
                    ClientPhase::Reply,
                    ClientStepView::Read { request: connect_bytes(address) },
                ),
                None => (
                    phase,
                    ClientStepView::Fail(
                        SocksError::HostTooLong(encode_utf8(host).len() as usize),
                    ),
                ),
            }
        },
        ClientPhase::Reply => if input[0] != SOCKS_VERSION {
            (phase, ClientStepView::Fail(SocksError::BadReplyVersion))
        } else if input[1] != REP_SUCCESS {
            (phase, ClientStepView::Fail(SocksError::ConnectFailed(input[1])))
        } else if input[3] == ATYP_IPV4 {
            (ClientPhase::Bound(6), ClientStepView::Read { request: Seq::empty() })
        } else if input[3] == ATYP_IPV6 {
            (ClientPhase::Bound(18), ClientStepView::Read { request: Seq::empty() })
        } else if input[3] == ATYP_DOMAIN {
            (ClientPhase::NameLen, ClientStepView::Read { request: Seq::empty() })
        } else {
            (phase, ClientStepView::Fail(SocksError::UnknownAddressType(input[3])))
        },
        ClientPhase::NameLen => (
            ClientPhase::Bound((input[0] + 2) as u16),
            ClientStepView::Read { request: Seq::empty() },
        ),
        ClientPhase::Bound(_) => (phase, ClientStepView::Done),
    }
}

/// A handshake with a proxy, on the way to a target.
pub struct ClientHandshake {
    target: TargetAddr,
    phase: ClientPhase,
}

impl ClientHandshake {
    pub closed spec fn target(&self) -> TargetView {
        self.target@
    }

    pub closed spec fn phase(&self) -> ClientPhase {
        self.phase
    }

    /// A handshake that has not begun, and what to write first.
    pub fn new(target: TargetAddr) -> (r: (Self, Vec<u8>))
        ensures
            r.0.target() == target@,
            r.0.phase() == ClientPhase::Greeting,
            r.1@ == hello_bytes(),
    {
        let hello: Vec<u8> = vec![SOCKS_VERSION, 1, AUTH_NONE];
        assert(hello@ =~= hello_bytes());
        (ClientHandshake { target, phase: ClientPhase::Greeting }, hello)
    }

    /// How many bytes to read next, exactly.
    pub fn due(&self) -> (r: usize)
        ensures
            r == self.phase().due(),
    {
        match self.phase {
            ClientPhase::Greeting => 2,
            ClientPhase::Reply => 4,
            ClientPhase::NameLen => 1,
            ClientPhase::Bound(n) => n as usize,
        }
    }

    /// Takes in the bytes that were due.
    pub fn step(&mut self, input: &[u8]) -> (r: ClientStep)
        requires
            input@.len() == old(self).phase().due(),
        ensures
            final(self).target() == old(self).target(),
            (final(self).phase(), r@) == client_step(
                old(self).target().address,
                old(self).target().port,
                old(self).phase(),
                input@,
            ),
    {
        let nothing: Vec<u8> = Vec::new();
        assert(nothing@ =~= Seq::empty());
        match self.phase {
            ClientPhase::Greeting => {
                if input[0] != SOCKS_VERSION {
                    return ClientStep::Fail(SocksError::ProxyNotSocks5(input[0]));
                }
                if input[1] != AUTH_NONE {
                    return ClientStep::Fail(SocksError::ProxyAuth(input[1]));
                }
                match encode_address(self.target.address.as_str(), self.target.port) {
                    Ok(address) => {
                        let mut address = address;
                        let mut request: Vec<u8> = vec![SOCKS_VERSION, CMD_CONNECT, 0];
                        let ghost a = address@;
                        request.append(&mut address);
                        assert(request@ =~= connect_bytes(a));
                        self.phase = ClientPhase::Reply;
                        ClientStep::Read { request }
                    },
                    Err(e) => ClientStep::Fail(e),
                }
            },
            ClientPhase::Reply => {
                if input[0] != SOCKS_VERSION {
                    return ClientStep::Fail(SocksError::BadReplyVersion);
                }
                if input[1] != REP_SUCCESS {
                    return ClientStep::Fail(SocksError::ConnectFailed(input[1]));
                }
                let atyp: u8 = input[3];
                if atyp == ATYP_IPV4 {
                    self.phase = ClientPhase::Bound(6);
                } else if atyp == ATYP_IPV6 {
                    self.phase = ClientPhase::Bound(18);
                } else if atyp == ATYP_DOMAIN {
                    self.phase = ClientPhase::NameLen;
                } else {
                    return ClientStep::Fail(SocksError::UnknownAddressType(atyp));
                }
                ClientStep::Read { request: nothing }
            },
            ClientPhase::NameLen => {
                self.phase = ClientPhase::Bound(input[0] as u16 + 2);
                ClientStep::Read { request: nothing }
            },
            ClientPhase::Bound(_) => ClientStep::Done,
        }
    }
}

// ── Both sides together ───────────────────────────────────────────────

/// A handshake with a client that writes all of `bytes` at once: what is replied, and
/// how it ends, if it does.
pub open spec fn serve(service: Service, phase: ServerPhase, bytes: Seq<u8>) -> (
    Seq<u8>,
    Option<ServerStepView>,
)
    decreases phase.rank(),
{
    if bytes.len() < phase.due() {
        (Seq::empty(), None)
    } else {
        let (next, step) = server_step(service, phase, bytes.take(phase.due()));
        match step {
            ServerStepView::Read { reply } => if next.rank() < phase.rank() {
                let (rest, end) = serve(service, next, bytes.skip(phase.due()));
                (reply + rest, end)
            } else {
                (reply, None)
            },
            _ => (Seq::empty(), Some(step)),
        }
    }
}

/// A client that asks to connect to a host is understood to ask for that host, and is
/// answered in a way that it accepts.
pub proof fn law_client_and_server_agree(host: Seq<char>, port: u16)
    requires
        address_bytes(host, port) is Some,
    ensures
        ({
            let address = address_bytes(host, port)->Some_0;
            let answer = seq![SOCKS_VERSION, AUTH_NONE];
            let reply = simple_reply_bytes(REP_SUCCESS);
            &&& serve(
                Service::Client,
                ServerPhase::Greeting,
                hello_bytes() + connect_bytes(address),
            ) == (
                answer,
                Some(
                    ServerStepView::Accept {
                        command: Command::Connect,
                        target: TargetView { address: canonical(host), port },
                    },
                ),
            )
            &&& client_step(host, port, ClientPhase::Greeting, answer) == (
                ClientPhase::Reply,
                (ClientStepView::Read { request: connect_bytes(address) }),
            )
            &&& client_step(host, port, ClientPhase::Reply, reply.take(4)).0 == ClientPhase::Bound(
                6,
            )
            &&& reply.skip(4).len() == ClientPhase::Bound(6).due()
            &&& client_step(host, port, ClientPhase::Bound(6), reply.skip(4)).1
                == ClientStepView::Done
        }),
{
    let a = address_bytes(host, port)->Some_0;
    law_address_round_trip(host, port, Seq::empty());
    assert(a + Seq::<u8>::empty() =~= a);
    lemma_served(a, TargetView { address: canonical(host), port });
    lemma_reply_accepted(host, port);
}

/// The reply that reports success ends a handshake with a proxy.
proof fn lemma_reply_accepted(host: Seq<char>, port: u16)
    ensures
        ({
            let reply = simple_reply_bytes(REP_SUCCESS);
            &&& client_step(host, port, ClientPhase::Reply, reply.take(4)).0 == ClientPhase::Bound(
                6,
            )
            &&& reply.skip(4).len() == 6
            &&& client_step(host, port, ClientPhase::Bound(6), reply.skip(4)).1
                == ClientStepView::Done
        }),
{
}

/// A request to connect to an address that can be read is understood.
#[verifier::spinoff_prover]
proof fn lemma_served(a: Seq<u8>, target: TargetView)
    requires
        a.len() >= 4,
        read_address(a[0], a) == Ok::<(TargetView, int), SocksError>((target, a.len() as int)),
    ensures
        serve(Service::Client, ServerPhase::Greeting, hello_bytes() + connect_bytes(a)) == (
            seq![SOCKS_VERSION, AUTH_NONE],
            Some(ServerStepView::Accept { command: Command::Connect, target }),
        ),
{
    let hello = hello_bytes();
    let request = connect_bytes(a);
    let all = hello + request;
    let connect = Command::Connect;
    let r1 = all.skip(2);
    let r2 = r1.skip(1);
    let r3 = r2.skip(4);
    assert(all.take(2) =~= seq![SOCKS_VERSION, 1u8]);
    assert(r2 =~= request);
    assert(r1.take(1) =~= seq![AUTH_NONE]);
    assert(seq![AUTH_NONE][0] == AUTH_NONE);
    assert(r2.take(4) =~= seq![SOCKS_VERSION, CMD_CONNECT, 0u8, a[0]]);
    assert(r3 =~= a.skip(1));
    let none = Seq::<u8>::empty();
    let answer = seq![SOCKS_VERSION, AUTH_NONE];
    lemma_serve_reads(Service::Client, ServerPhase::Greeting, all, ServerPhase::Methods(1), none);
    lemma_serve_reads(
        Service::Client,
        ServerPhase::Methods(1),
        r1,
        ServerPhase::Request,
        answer,
    );
    let address = ServerPhase::Address { command: connect, atyp: a[0] };
    lemma_serve_reads(Service::Client, ServerPhase::Request, r2, address, none);
    if a[0] == ATYP_DOMAIN {
        let n = a[1];
        let name = ServerPhase::Name { command: connect, len: n };
        assert(r3.take(1)[0] == n);
        let r4 = r3.skip(1);
        lemma_serve_reads(Service::Client, address, r3, name, none);
        assert(r4.take(n + 2) =~= r4);
        assert(seq![ATYP_DOMAIN, n] + r4 =~= a);
    } else {
        assert(r3.take(r3.len() as int) =~= r3);
        assert(seq![a[0]] + r3 =~= a);
    }
    assert(serve(Service::Client, address, r3) == (
        none,
        Some(ServerStepView::Accept { command: connect, target }),
    )) by {
        assert(none + none =~= none);
    }
    assert(none + none =~= none);
    assert(answer + none =~= answer);
    assert(none + answer =~= answer);
}

/// A step that asks for more is followed by the next one.
proof fn lemma_serve_reads(
    service: Service,
    phase: ServerPhase,
    bytes: Seq<u8>,
    next: ServerPhase,
    reply: Seq<u8>,
)
    requires
        bytes.len() >= phase.due(),
        server_step(service, phase, bytes.take(phase.due())) == (
            next,
            (ServerStepView::Read { reply }),
        ),
        next.rank() < phase.rank(),
    ensures
        serve(service, phase, bytes) == ({
            let (rest, end) = serve(service, next, bytes.skip(phase.due()));
            (reply + rest, end)
        }),
{
}

} // verus!
