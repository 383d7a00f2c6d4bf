use round_robin::addr::{IpAddress, SocketAddress};
use round_robin::socks5::{
    decode_udp_datagram, encode_address, encode_reply, encode_udp_datagram, parse_udp_address,
    simple_reply, ClientHandshake, ClientStep, Command, ServerHandshake, ServerStep, Service,
    SocksError, TargetAddr, REP_GENERAL_FAILURE, REP_SUCCESS,
};

fn target(address: &str, port: u16) -> TargetAddr {
    TargetAddr { address: address.into(), port }
}

/// Runs a server's side of the handshake on a client's bytes. Gives back the bytes that
/// went to the client and the last step.
fn serve(service: Service, mut input: &[u8]) -> (Vec<u8>, Option<ServerStep>) {
    let mut server = ServerHandshake::new(service);
    let mut out = Vec::new();
    loop {
        let n = server.due();
        if n > input.len() {
            return (out, None);
        }
        let (now, rest) = input.split_at(n);
        input = rest;
        match server.step(now) {
            ServerStep::Read { reply } => out.extend(reply),
            last => return (out, Some(last)),
        }
    }
}

fn request(input: &[u8]) -> Vec<u8> {
    let mut all = vec![5, 1, 0];
    all.extend_from_slice(input);
    all
}

#[test]
fn udp_datagram_ipv4_roundtrip() {
    let target = TargetAddr { address: "1.2.3.4".into(), port: 53 };
    let data = b"hello udp";
    let encoded = encode_udp_datagram(&target, data).unwrap();
    let (decoded_target, decoded_data) = decode_udp_datagram(&encoded).unwrap();
    assert_eq!(decoded_target.address, "1.2.3.4");
    assert_eq!(decoded_target.port, 53);
    assert_eq!(&decoded_data[..], b"hello udp");
}

#[test]
fn udp_datagram_domain_roundtrip() {
    let target = TargetAddr { address: "dns.google".into(), port: 53 };
    let data = vec![0u8; 32];
    let encoded = encode_udp_datagram(&target, &data).unwrap();
    let (decoded_target, decoded_data) = decode_udp_datagram(&encoded).unwrap();
    assert_eq!(decoded_target.address, "dns.google");
    assert_eq!(decoded_target.port, 53);
    assert_eq!(decoded_data.len(), 32);
}

#[test]
fn addresses_in_each_form() {
    assert_eq!(encode_address("1.2.3.4", 0x1234), Ok(vec![1, 1, 2, 3, 4, 0x12, 0x34]));
    let mut v6 = vec![4, 0x20, 1, 0x0d, 0xb8];
    v6.extend([0; 11]);
    v6.extend([1, 0, 80]);
    assert_eq!(encode_address("2001:db8::1", 80), Ok(v6));
    assert_eq!(encode_address("é", 80), Ok(vec![3, 2, 0xc3, 0xa9, 0, 80]));
    assert_eq!(encode_address("", 80), Ok(vec![3, 0, 0, 80]));
    assert_eq!(encode_address(&"a".repeat(255), 80).unwrap().len(), 259);
    let long = encode_address(&"a".repeat(256), 80);
    assert_eq!(long, Err(SocksError::HostTooLong(256)));
}

#[test]
fn udp_addresses_are_read_back() {
    let (host, port, used) = parse_udp_address(1, &[1, 10, 0, 255, 1, 0, 53, 9]).unwrap();
    assert_eq!((host.as_str(), port, used), ("10.0.255.1", 53, 7));
    let (host, port, used) = parse_udp_address(3, &[3, 2, b'h', b'i', 0, 53, 9]).unwrap();
    assert_eq!((host.as_str(), port, used), ("hi", 53, 6));
    let mut v6 = vec![4, 0x20, 1, 0x0d, 0xb8];
    v6.extend([0; 11]);
    v6.extend([0xf, 0, 80]);
    let (host, port, used) = parse_udp_address(4, &v6).unwrap();
    assert_eq!(host, "2001:0db8:0000:0000:0000:0000:0000:000f");
    assert_eq!((port, used), (80, 19));
}

#[test]
fn broken_datagrams_are_refused() {
    let refused = |d: &[u8]| decode_udp_datagram(d).err().unwrap();
    assert_eq!(refused(&[0, 0, 0]), SocksError::DatagramTooShort);
    assert_eq!(refused(&[0, 0, 1, 1, 1, 2, 3, 4, 0, 53]), SocksError::Fragmented);
    assert_eq!(refused(&[0, 0, 0, 1, 1, 2, 3, 4, 0]), SocksError::AddressTruncated(1));
    assert_eq!(refused(&[0, 0, 0, 3]), SocksError::AddressTruncated(3));
    assert_eq!(refused(&[0, 0, 0, 3, 2, b'h', b'i', 0]), SocksError::AddressTruncated(3));
    assert_eq!(refused(&[0, 0, 0, 3, 1, 0xff, 0, 53]), SocksError::HostNotUtf8);
    assert_eq!(refused(&[0, 0, 0, 4, 0]), SocksError::AddressTruncated(4));
    assert_eq!(refused(&[0, 0, 0, 2]), SocksError::UnknownAddressType(2));
    let (to, data) = decode_udp_datagram(&[9, 9, 0, 1, 1, 2, 3, 4, 0, 53]).unwrap();
    assert_eq!((to.address.as_str(), to.port, data.len()), ("1.2.3.4", 53, 0));
    let long = encode_udp_datagram(&target(&"a".repeat(256), 1), b"");
    assert_eq!(long.err(), Some(SocksError::HostTooLong(256)));
}

#[test]
fn ipv6_datagram_roundtrip() {
    let encoded = encode_udp_datagram(&target("::1", 53), b"x").unwrap();
    assert_eq!(encoded.len(), 3 + 19 + 1);
    let (to, data) = decode_udp_datagram(&encoded).unwrap();
    assert_eq!(to.address, "0000:0000:0000:0000:0000:0000:0000:0001");
    assert_eq!(&data[..], b"x");
    let again = encode_udp_datagram(&to.clone(), &data).unwrap();
    assert_eq!(again, encoded);
}

#[test]
fn replies_name_an_address() {
    assert_eq!(simple_reply(REP_SUCCESS), vec![5, 0, 0, 1, 0, 0, 0, 0, 0, 0]);
    assert_eq!(simple_reply(REP_GENERAL_FAILURE), vec![5, 1, 0, 1, 0, 0, 0, 0, 0, 0]);
    let v4 = SocketAddress { ip: IpAddress::V4(0x7f000001), port: 0x0102 };
    assert_eq!(encode_reply(0, v4), vec![5, 0, 0, 1, 127, 0, 0, 1, 1, 2]);
    let v6 = SocketAddress { ip: IpAddress::V6(1), port: 0x0102 };
    let mut want = vec![5, 0, 0, 4];
    want.extend([0; 15]);
    want.extend([1, 1, 2]);
    assert_eq!(encode_reply(0, v6), want);
}

#[test]
fn server_takes_connect_requests() {
    let (out, step) = serve(Service::Client, &request(&[5, 1, 0, 1, 1, 2, 3, 4, 0, 80]));
    assert_eq!(out, vec![5, 0]);
    match step.unwrap() {
        ServerStep::Accept { command, target } => {
            assert_eq!(command, Command::Connect);
            assert_eq!((target.address.as_str(), target.port), ("1.2.3.4", 80));
        }
        other => panic!("{other:?}"),
    }
    let name = [&[5, 1, 0, 3, 11][..], b"example.com", &[1, 187]].concat();
    match serve(Service::Client, &request(&name)).1.unwrap() {
        ServerStep::Accept { target, .. } => {
            assert_eq!((target.address.as_str(), target.port), ("example.com", 443));
        }
        other => panic!("{other:?}"),
    }
    let v6 = [&[5, 3, 0, 4][..], &[0; 15], &[1, 0, 53]].concat();
    match serve(Service::Client, &request(&v6)).1.unwrap() {
        ServerStep::Accept { command, target } => {
            assert_eq!(command, Command::UdpAssociate);
            assert_eq!(target.address, "0000:0000:0000:0000:0000:0000:0000:0001");
            assert_eq!(target.port, 53);
        }
        other => panic!("{other:?}"),
    }
}

#[test]
fn server_refuses_what_it_cannot_serve() {
    let refusal = |service: Service, input: &[u8]| match serve(service, input) {
        (out, Some(ServerStep::Refuse { reply, error })) => ([out, reply].concat(), error),
        (_, other) => panic!("{other:?}"),
    };
    let (out, error) = refusal(Service::Client, &[4, 1]);
    assert_eq!((out, error), (vec![], SocksError::NotSocks5(4)));
    let (out, error) = refusal(Service::Client, &[5, 2, 1, 2]);
    assert_eq!((out, error), (vec![5, 0xff], SocksError::AuthRequired));
    let (out, error) = refusal(Service::Client, &[5, 0]);
    assert_eq!((out, error), (vec![5, 0xff], SocksError::AuthRequired));
    let (out, error) = refusal(Service::Client, &request(&[4, 1, 0, 1]));
    assert_eq!((out, error), (vec![5, 0], SocksError::BadRequestVersion));
    let (out, error) = refusal(Service::Client, &request(&[5, 2, 0, 1]));
    assert_eq!(out, vec![5, 0, 5, 7, 0, 1, 0, 0, 0, 0, 0, 0]);
    assert_eq!(error, SocksError::UnknownCommand(2));
    let (out, error) = refusal(Service::Client, &request(&[5, 1, 0, 9]));
    assert_eq!((out, error), (vec![5, 0], SocksError::UnknownAddressType(9)));
    let (out, error) = refusal(Service::Client, &request(&[5, 1, 0, 3, 1, 0xff, 0, 80]));
    assert_eq!((out, error), (vec![5, 0], SocksError::HostNotUtf8));
    assert!(serve(Service::Client, &request(&[5, 1, 0, 1, 1, 2])).1.is_none());
}

#[test]
fn tunnel_server_takes_any_target() {
    for input in [
        &[5u8, 1, 0, 1, 1, 2, 3, 4, 0, 80][..],
        &[5, 77, 0, 3, 1, 0xff, 0, 80],
        &[5, 1, 0, 4, 0, 0, 0, 0, 0, 0, 0, 0, 0, 0, 0, 0, 0, 0, 0, 1, 0, 80],
    ] {
        let (out, step) = serve(Service::Tunnel, &request(input));
        assert_eq!(out, vec![5, 0]);
        match step.unwrap() {
            ServerStep::Tunnel { reply } => assert_eq!(reply, simple_reply(REP_SUCCESS)),
            other => panic!("{other:?}"),
        }
    }
}

#[test]
fn client_asks_and_reads_the_reply() {
    for bound in [
        &[1u8, 0, 0, 0, 0, 0, 0][..],
        &[3, 2, b'h', b'i', 0, 0],
        &[4, 0, 0, 0, 0, 0, 0, 0, 0, 0, 0, 0, 0, 0, 0, 0, 0, 0, 0],
    ] {
        let (mut client, hello) = ClientHandshake::new(target("example.com", 443));
        assert_eq!(hello, vec![5, 1, 0]);
        let mut input: Vec<u8> = vec![5, 0, 5, 0, 0];
        input.extend_from_slice(bound);
        let mut sent = Vec::new();
        loop {
            let n = client.due();
            let now: Vec<u8> = input.drain(..n).collect();
            match client.step(&now) {
                ClientStep::Read { request } => sent.extend(request),
                ClientStep::Done => break,
                ClientStep::Fail(e) => panic!("{e:?}"),
            }
        }
        assert!(input.is_empty());
        assert_eq!(sent, [&[5, 1, 0, 3, 11][..], b"example.com", &[1, 187]].concat());
    }
}

#[test]
fn client_tells_why_it_failed() {
    let fails = |to: TargetAddr, input: &[u8]| {
        let (mut client, _) = ClientHandshake::new(to);
        let mut input = input;
        loop {
            let (now, rest) = input.split_at(client.due());
            input = rest;
            match client.step(now) {
                ClientStep::Read { .. } => {}
                ClientStep::Done => panic!("no failure"),
                ClientStep::Fail(e) => return e,
            }
        }
    };
    let far = || target("far", 1);
    assert_eq!(fails(far(), &[4, 0]), SocksError::ProxyNotSocks5(4));
    assert_eq!(fails(far(), &[5, 2]), SocksError::ProxyAuth(2));
    assert_eq!(fails(target(&"a".repeat(300), 1), &[5, 0]), SocksError::HostTooLong(300));
    assert_eq!(fails(far(), &[5, 0, 4, 0, 0, 1]), SocksError::BadReplyVersion);
    assert_eq!(fails(far(), &[5, 0, 5, 5, 0, 1]), SocksError::ConnectFailed(5));
    assert_eq!(fails(far(), &[5, 0, 5, 0, 0, 9]), SocksError::UnknownAddressType(9));
}

#[test]
fn client_and_server_understand_each_other() {
    for (asked, seen) in [
        ("10.1.2.3", "10.1.2.3"),
        ("::1", "0000:0000:0000:0000:0000:0000:0000:0001"),
        ("example.com", "example.com"),
    ] {
        let (mut client, hello) = ClientHandshake::new(target(asked, 8080));
        let mut server = ServerHandshake::new(Service::Client);
        let (mut up, mut down) = (hello, Vec::new());
        let got = loop {
            while down.len() >= client.due() {
                let now: Vec<u8> = down.drain(..client.due()).collect();
                match client.step(&now) {
                    ClientStep::Read { request } => up.extend(request),
                    other => panic!("{other:?}"),
                }
            }
            let now: Vec<u8> = up.drain(..server.due()).collect();
            match server.step(&now) {
                ServerStep::Read { reply } => down.extend(reply),
                ServerStep::Accept { command, target } => break (command, target),
                other => panic!("{other:?}"),
            }
        };
        assert_eq!(got.0, Command::Connect);
        assert_eq!((got.1.address.as_str(), got.1.port), (seen, 8080));
    }
}
