use round_robin::addr::{IpAddress, SocketAddress};
use round_robin::config::{
    default_chunk, default_data_send_timeout, default_heartbeat, default_listen_ip,
    default_local_target, default_reassembler_ports, default_reorder_window,
    default_splitter_listen, default_true, parse_ports, plan, Config, ConfigError, Plan, Ports,
    ReassemblerConfig, SplitterConfig, Tunnel,
};

fn address(text: &str) -> SocketAddress {
    let (host, port) = text.rsplit_once(':').unwrap();
    let mut ip: u32 = 0;
    for part in host.split('.') {
        ip = ip * 256 + part.parse::<u32>().unwrap();
    }
    SocketAddress { ip: IpAddress::V4(ip), port: port.parse().unwrap() }
}

fn number(table: &toml::Table, key: &str, default: u64) -> u64 {
    match table.get(key) {
        Some(v) => v.as_integer().unwrap() as u64,
        None => default,
    }
}

/// Reads a configuration file the way the program does, field by field.
fn read(text: &str) -> Config {
    let table: toml::Table = text.parse().unwrap();
    let splitter = table.get("splitter").map(|v| {
        let t = v.as_table().unwrap();
        SplitterConfig {
            listen: default_splitter_listen(),
            chunk_size: number(t, "chunk_size", default_chunk() as u64) as usize,
            tunnel: t["tunnel"]
                .as_array()
                .unwrap()
                .iter()
                .map(|e| Tunnel {
                    proxy: address(e["proxy"].as_str().unwrap()),
                    target: e["target"].as_str().unwrap().to_string(),
                    port: e["port"].as_integer().unwrap() as u16,
                })
                .collect(),
            data_send_timeout_secs: number(
                t,
                "data_send_timeout_secs",
                default_data_send_timeout(),
            ),
            heartbeat_secs: number(t, "heartbeat_secs", default_heartbeat()),
            reorder_window_bytes: number(t, "reorder_window_bytes", default_reorder_window()),
        }
    });
    let reassembler = table.get("reassembler").map(|v| {
        let t = v.as_table().unwrap();
        ReassemblerConfig {
            listen: default_listen_ip(),
            ports: default_reassembler_ports(),
            local_target: default_local_target(),
            chunk_size: number(t, "chunk_size", default_chunk() as u64) as usize,
            data_send_timeout_secs: number(
                t,
                "data_send_timeout_secs",
                default_data_send_timeout(),
            ),
            heartbeat_secs: number(t, "heartbeat_secs", default_heartbeat()),
            reorder_window_bytes: number(t, "reorder_window_bytes", default_reorder_window()),
        }
    });
    Config {
        mode: table["mode"].as_str().unwrap().to_string(),
        log: default_true(),
        splitter,
        reassembler,
    }
}

#[test]
fn parse_ports_range() {
    let ports = Ports::Range("52311-52313".into());
    let result = parse_ports(&ports).unwrap();
    assert_eq!(result, vec![52311, 52312, 52313]);
}

#[test]
fn parse_ports_list() {
    let ports = Ports::List(vec![52311, 52312]);
    let result = parse_ports(&ports).unwrap();
    assert_eq!(result, vec![52311, 52312]);
}

#[test]
fn parse_ports_single() {
    let ports = Ports::Range("52311".into());
    let result = parse_ports(&ports).unwrap();
    assert_eq!(result, vec![52311]);
}

#[test]
fn parse_ports_invalid_range() {
    let ports = Ports::Range("52313-52311".into());
    assert!(parse_ports(&ports).is_err());
}

#[test]
fn parse_ports_dedups_keeping_order() {
    let ports = Ports::List(vec![52312, 52311, 52312, 52311, 52313]);
    let result = parse_ports(&ports).unwrap();
    assert_eq!(result, vec![52312, 52311, 52313]);
}

#[test]
fn parse_ports_rejects_huge_range() {
    let ports = Ports::Range("1-65535".into());
    assert!(parse_ports(&ports).is_err());
}

#[test]
fn parse_ports_rejects_huge_list() {
    let ports = Ports::List((1..=257).map(|p| p as u16).collect());
    assert!(parse_ports(&ports).is_err());
}

#[test]
fn parse_ports_rejects_zero() {
    assert!(parse_ports(&Ports::List(vec![0])).is_err());
    assert!(parse_ports(&Ports::Range("0-10".into())).is_err());
    assert!(parse_ports(&Ports::Range("52310".into())).is_ok());
}

#[test]
fn validate_rejects_zero_timeouts() {
    let cfg = read(
        r#"
mode = "splitter"

[splitter]
heartbeat_secs = 0
tunnel = []
"#,
    );
    assert!(cfg.splitter.unwrap().validate().is_err());

    let cfg = read(
        r#"
mode = "reassembler"

[reassembler]
data_send_timeout_secs = 0
"#,
    );
    assert!(cfg.reassembler.unwrap().validate().is_err());

    let cfg = read(
        r#"
mode = "splitter"

[splitter]
tunnel = []
"#,
    );
    cfg.splitter.unwrap().validate().unwrap();
}

#[test]
fn validate_rejects_tunnel_port_zero() {
    let cfg = read(
        r#"
mode = "splitter"

[splitter]
[[splitter.tunnel]]
proxy = "127.0.0.1:1080"
target = "127.0.0.1"
port = 0
"#,
    );
    assert!(cfg.splitter.unwrap().validate().is_err());
}

#[test]
fn reorder_window_defaults_and_validation() {
    let cfg = read(
        r#"
mode = "splitter"

[splitter]
tunnel = []
"#,
    );
    let sc = cfg.splitter.unwrap();
    assert_eq!(sc.reorder_window_bytes, 64 * 1024 * 1024);
    sc.validate().unwrap();

    let cfg = read(
        r#"
mode = "splitter"

[splitter]
reorder_window_bytes = 65534
tunnel = []
"#,
    );
    assert!(cfg.splitter.unwrap().validate().is_err());

    let cfg = read(
        r#"
mode = "splitter"

[splitter]
reorder_window_bytes = 2147483648
tunnel = []
"#,
    );
    assert!(cfg.splitter.unwrap().validate().is_err());
}

#[test]
fn timeout_fields_default_and_parse() {
    let cfg = read(
        r#"
mode = "splitter"

[splitter]
tunnel = [{ proxy = "127.0.0.1:1080", target = "127.0.0.1", port = 1 }]

[reassembler]
"#,
    );
    let sc = cfg.splitter.unwrap();
    assert_eq!(sc.data_send_timeout_secs, 30);
    assert_eq!(sc.heartbeat_secs, 60);
    let rc = cfg.reassembler.unwrap();
    assert_eq!(rc.data_send_timeout_secs, 30);
    assert_eq!(rc.heartbeat_secs, 60);

    let cfg = read(
        r#"
mode = "splitter"

[splitter]
data_send_timeout_secs = 5
heartbeat_secs = 2
tunnel = []

[reassembler]
data_send_timeout_secs = 7
heartbeat_secs = 3
"#,
    );
    assert_eq!(cfg.splitter.unwrap().data_send_timeout_secs, 5);
    assert_eq!(cfg.reassembler.unwrap().heartbeat_secs, 3);
}

#[test]
fn ports_around_white_space_and_signs() {
    let read = |s: &str| parse_ports(&Ports::Range(s.into()));
    assert_eq!(read(" 5 - 7\t"), Ok(vec![5, 6, 7]));
    assert_eq!(read("\u{3000}+80\u{a0}"), Ok(vec![80]));
    assert_eq!(read("00080"), Ok(vec![80]));
    assert_eq!(read("65535"), Ok(vec![65535]));
    assert_eq!(read("65280-65535").unwrap().len(), 256);
    assert_eq!(read(""), Err(ConfigError::BadPort));
    assert_eq!(read("+"), Err(ConfigError::BadPort));
    assert_eq!(read("65536"), Err(ConfigError::BadPort));
    assert_eq!(read("1-2-3"), Err(ConfigError::BadPort));
    assert_eq!(read("-5"), Err(ConfigError::BadPort));
    assert_eq!(read("8 0"), Err(ConfigError::BadPort));
    assert_eq!(read("7-5"), Err(ConfigError::RangeReversed));
    assert_eq!(read("1-257"), Err(ConfigError::TooManyPorts(257)));
    assert_eq!(read("0"), Err(ConfigError::PortZero));
    assert_eq!(parse_ports(&Ports::List(vec![])), Err(ConfigError::NoPorts));
    assert_eq!(parse_ports(&Ports::List(vec![7; 257])), Err(ConfigError::TooManyPorts(257)));
    assert_eq!(parse_ports(&default_reassembler_ports()).unwrap().len(), 9);
}

#[test]
fn limits_of_a_configuration() {
    let text = "mode = \"splitter\"\n[splitter]\ntunnel = []\n";
    let with = |line: &str| read(&format!("{text}{line}\n")).splitter.unwrap().validate();
    assert_eq!(with("chunk_size = 512"), Ok(()));
    assert_eq!(with("chunk_size = 511"), Err(ConfigError::ChunkSize));
    assert_eq!(with("chunk_size = 65535"), Ok(()));
    assert_eq!(with("chunk_size = 65536"), Err(ConfigError::ChunkSize));
    assert_eq!(with("data_send_timeout_secs = 0"), Err(ConfigError::ZeroDataSendTimeout));
    assert_eq!(with("heartbeat_secs = 0"), Err(ConfigError::ZeroHeartbeat));
    assert_eq!(with("reorder_window_bytes = 65535"), Ok(()));
    assert_eq!(with("reorder_window_bytes = 65534"), Err(ConfigError::WindowTooSmall));
    assert_eq!(with("reorder_window_bytes = 1073741824"), Ok(()));
    assert_eq!(with("reorder_window_bytes = 1073741825"), Err(ConfigError::WindowTooLarge));
    let mut sc = read(text).splitter.unwrap();
    sc.tunnel.push(Tunnel { proxy: address("10.0.0.1:0"), target: "a".into(), port: 1 });
    assert_eq!(sc.validate(), Err(ConfigError::ProxyPortZero));
    sc.tunnel.push(Tunnel { proxy: address("10.0.0.1:1"), target: "a".into(), port: 0 });
    assert_eq!(sc.validate(), Err(ConfigError::TunnelPortZero));
}

#[test]
fn plans_what_the_mode_asks_for() {
    let good = "mode = \"splitter\"\n[splitter]\nchunk_size = 4096\n\
                tunnel = [{ proxy = \"127.0.0.1:1080\", target = \"far\", port = 9 }]\n[reassembler]\n";
    match plan(&read(good)).ok().unwrap() {
        Plan::Splitter(run) => {
            assert_eq!(run.listen_addr, address("127.0.0.1:52310"));
            assert_eq!(run.chunk_size, 4096);
            assert_eq!(run.reorder_window_bytes, 67108864);
            assert_eq!(run.tunnels.len(), 1);
            assert_eq!(run.tunnels[0].proxy, address("127.0.0.1:1080"));
            assert_eq!(run.tunnels[0].target, "far");
            assert_eq!(run.tunnels[0].port, 9);
        }
        Plan::Reassembler(_) => panic!("wrong mode"),
    }
    let mut other = read(good);
    other.mode = "reassembler".into();
    match plan(&other).ok().unwrap() {
        Plan::Reassembler(run) => {
            assert_eq!(run.listen_ports.len(), 9);
            assert_eq!(run.local_target, address("127.0.0.1:52310"));
        }
        Plan::Splitter(_) => panic!("wrong mode"),
    }
    other.mode = "Splitter".into();
    assert_eq!(plan(&other).err(), Some(ConfigError::UnknownMode));
    let empty = read("mode = \"reassembler\"\n");
    assert_eq!(plan(&empty).err(), Some(ConfigError::MissingSection));
    let none = read("mode = \"splitter\"\n[splitter]\ntunnel = []\n");
    assert_eq!(plan(&none).err(), Some(ConfigError::NoTunnels));
}
