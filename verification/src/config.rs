//! Configuration: defaults, limits and port lists.

use crate::addr::{IpAddress, SocketAddress};
use crate::frame::{MAX_CHUNK, MAX_PAYLOAD, MIN_CHUNK};
use crate::reassembler;
use crate::splitter;
use crate::splitter::TunnelEndpoint;
use crate::text::{chars_of, parse_u16, same_text, trim, trimmed, u16_value};
use vstd::prelude::*;

verus! {

/// Most ports that one reassembler listens on.
pub const MAX_PORTS: usize = 256;

/// Largest byte budget of a reorder window.
pub const MAX_WINDOW_BYTES: u64 = 1024 * 1024 * 1024;

/// The loopback address.
pub const LOCALHOST: u32 = 0x7f00_0001;

/// Why a configuration cannot be used.
#[derive(Debug, Clone, Copy, PartialEq, Eq, Structural)]
pub enum ConfigError {
    /// `chunk_size` is out of its range.
    ChunkSize,
    /// `data_send_timeout_secs` is 0: every send would time out at once.
    ZeroDataSendTimeout,
    /// `heartbeat_secs` is 0: the sweep would never rest.
    ZeroHeartbeat,
    /// `reorder_window_bytes` does not hold one chunk.
    WindowTooSmall,
    /// `reorder_window_bytes` is above its limit.
    WindowTooLarge,
    /// A tunnel has port 0.
    TunnelPortZero,
    /// A tunnel's proxy has port 0.
    ProxyPortZero,
    /// A port is not a number from 0 to 65535.
    BadPort,
    /// A port range ends before it starts.
    RangeReversed,
    /// There are this many ports, which is too many.
    TooManyPorts(usize),
    /// A port is 0.
    PortZero,
    /// There is no port.
    NoPorts,
    /// The section for the mode is missing.
    MissingSection,
    /// There is no tunnel.
    NoTunnels,
    /// The mode is neither of the two.
    UnknownMode,
}

/// The whole configuration.
pub struct Config {
    /// `splitter` or `reassembler`.
    pub mode: String,
    /// Whether to write daily log files.
    pub log: bool,
    pub splitter: Option<SplitterConfig>,
    pub reassembler: Option<ReassemblerConfig>,
}

/// The configuration of a splitter.
pub struct SplitterConfig {
    pub listen: SocketAddress,
    /// How many bytes to read from a client at once.
    pub chunk_size: usize,
    pub tunnel: Vec<Tunnel>,
    /// How long a frame may wait for a tunnel that takes it.
    pub data_send_timeout_secs: u64,
    /// How often to sweep.
    pub heartbeat_secs: u64,
    /// Byte budget of each connection's reorder window.
    pub reorder_window_bytes: u64,
}

/// The configuration of a reassembler.
pub struct ReassemblerConfig {
    pub listen: IpAddress,
    pub ports: Ports,
    /// The SOCKS5 proxy that leads to the targets.
    pub local_target: SocketAddress,
    /// How many bytes to read from a target at once.
    pub chunk_size: usize,
    /// How long a frame may wait for a tunnel that takes it.
    pub data_send_timeout_secs: u64,
    /// How often to sweep.
    pub heartbeat_secs: u64,
    /// Byte budget of each connection's reorder window.
    pub reorder_window_bytes: u64,
}

/// Ports: a list, or a text with one port or a range like `52311-52319`.
pub enum Ports {
    Range(String),
    List(Vec<u16>),
}

/// A tunnel: the reassembler's address, and the SOCKS5 proxy that leads to it.
pub struct Tunnel {
    pub proxy: SocketAddress,
    pub target: String,
    pub port: u16,
}

// ── Defaults ──────────────────────────────────────────────────────────

pub fn default_true() -> (r: bool)
    ensures
        r,
{
    true
}

pub fn default_data_send_timeout() -> (r: u64)
    ensures
        r == 30,
{
    30
}

pub fn default_heartbeat() -> (r: u64)
    ensures
        r == 60,
{
    60
}

pub fn default_reorder_window() -> (r: u64)
    ensures
        r == 64 * 1024 * 1024,
{
    64 * 1024 * 1024
}

pub fn default_chunk() -> (r: usize)
    ensures
        r == 65535,
{
    65535
}

pub fn default_listen_ip() -> (r: IpAddress)
    ensures
        r == IpAddress::V4(LOCALHOST),
{
    IpAddress::V4(LOCALHOST)
}

pub fn default_splitter_listen() -> (r: SocketAddress)
    ensures
        r == (SocketAddress { ip: IpAddress::V4(LOCALHOST), port: 52310 }),
{
    SocketAddress { ip: IpAddress::V4(LOCALHOST), port: 52310 }
}

pub fn default_local_target() -> (r: SocketAddress)
    ensures
        r == (SocketAddress { ip: IpAddress::V4(LOCALHOST), port: 52310 }),
{
    SocketAddress { ip: IpAddress::V4(LOCALHOST), port: 52310 }
}

pub fn default_reassembler_ports() -> (r: Ports)
    ensures
        r matches Ports::Range(s) && s@ == "52311-52319"@,
{
    Ports::Range(String::from_str("52311-52319"))
}

// ── Limits ────────────────────────────────────────────────────────────

/// Whether a number of seconds is one at least.
pub fn validate_secs(secs: u64) -> (r: bool)
    ensures
        r == (secs >= 1),
{
    secs != 0
}

/// What is wrong with the size of a reorder window, if anything.
pub open spec fn window_problem(bytes: u64, chunk_size: u64) -> Option<ConfigError> {
    if bytes < chunk_size {
        Some(ConfigError::WindowTooSmall)
    } else if bytes > MAX_WINDOW_BYTES {
        Some(ConfigError::WindowTooLarge)
    } else {
        None
    }
}

/// What is wrong with the settings that both ends share, if anything.
pub open spec fn common_problem(chunk_size: usize, timeout: u64, heartbeat: u64, window: u64) -> Option<
    ConfigError,
> {
    if chunk_size < MIN_CHUNK || chunk_size > MAX_CHUNK {
        Some(ConfigError::ChunkSize)
    } else if timeout == 0 {
        Some(ConfigError::ZeroDataSendTimeout)
    } else if heartbeat == 0 {
        Some(ConfigError::ZeroHeartbeat)
    } else {
        window_problem(window, chunk_size as u64)
    }
}

/// Succeeds where nothing is wrong.
pub open spec fn verdict(problem: Option<ConfigError>) -> Result<(), ConfigError> {
    match problem {
        Some(e) => Err(e),
        None => Ok(()),
    }
}

/// Checks the size of a reorder window: a window that does not hold one chunk would
/// overflow on the first chunk out of order.
pub fn validate_reorder_window(bytes: u64, chunk_size: u64) -> (r: Result<(), ConfigError>)
    ensures
        r == verdict(window_problem(bytes, chunk_size)),
{
    if bytes < chunk_size {
        return Err(ConfigError::WindowTooSmall);
    }
    if bytes > MAX_WINDOW_BYTES {
        return Err(ConfigError::WindowTooLarge);
    }
    Ok(())
}

fn validate_common(chunk_size: usize, timeout: u64, heartbeat: u64, window: u64) -> (r: Result<
    (),
    ConfigError,
>)
    ensures
        r == verdict(common_problem(chunk_size, timeout, heartbeat, window)),
{
    if chunk_size < MIN_CHUNK || chunk_size > MAX_CHUNK {
        return Err(ConfigError::ChunkSize);
    }
    if !validate_secs(timeout) {
        return Err(ConfigError::ZeroDataSendTimeout);
    }
    if !validate_secs(heartbeat) {
        return Err(ConfigError::ZeroHeartbeat);
    }
    validate_reorder_window(window, chunk_size as u64)
}

impl SplitterConfig {
    /// What is wrong with the configuration, if anything; of several things, the
    /// first in this order.
    pub open spec fn problem(&self) -> Option<ConfigError> {
        let common = common_problem(
            self.chunk_size,
            self.data_send_timeout_secs,
            self.heartbeat_secs,
            self.reorder_window_bytes,
        );
        if common is Some {
            common
        } else if exists|i: int| 0 <= i < self.tunnel@.len() && (#[trigger] self.tunnel@[i]).port == 0 {
            Some(ConfigError::TunnelPortZero)
        } else if exists|i: int|
            0 <= i < self.tunnel@.len() && (#[trigger] self.tunnel@[i]).proxy.port == 0 {
            Some(ConfigError::ProxyPortZero)
        } else {
            None
        }
    }

    /// Checks the configuration.
    pub fn validate(&self) -> (r: Result<(), ConfigError>)
        ensures
            r == verdict(self.problem()),
    {
        match validate_common(
            self.chunk_size,
            self.data_send_timeout_secs,
            self.heartbeat_secs,
            self.reorder_window_bytes,
        ) {
            Ok(_) => {},
            Err(e) => {
                return Err(e);
            },
        }
        let mut i: usize = 0;
        while i < self.tunnel.len()
            invariant
                i <= self.tunnel@.len(),
                self.problem() is None || self.problem() == Some(ConfigError::TunnelPortZero)
                    || self.problem() == Some(ConfigError::ProxyPortZero),
                common_problem(
                    self.chunk_size,
                    self.data_send_timeout_secs,
                    self.heartbeat_secs,
                    self.reorder_window_bytes,
                ) is None,
                forall|j: int| 0 <= j < i ==> (#[trigger] self.tunnel@[j]).port != 0,
            decreases self.tunnel.len() - i,
        {
            if self.tunnel[i].port == 0 {
                assert(self.tunnel@[i as int].port == 0);
                return Err(ConfigError::TunnelPortZero);
            }
            i = i + 1;
        }
        let mut i: usize = 0;
        while i < self.tunnel.len()
            invariant
                i <= self.tunnel@.len(),
                common_problem(
                    self.chunk_size,
                    self.data_send_timeout_secs,
                    self.heartbeat_secs,
                    self.reorder_window_bytes,
                ) is None,
                forall|j: int|
                    0 <= j < self.tunnel@.len() ==> (#[trigger] self.tunnel@[j]).port != 0,
                forall|j: int| 0 <= j < i ==> (#[trigger] self.tunnel@[j]).proxy.port != 0,
            decreases self.tunnel.len() - i,
        {
            if self.tunnel[i].proxy.port == 0 {
                assert(self.tunnel@[i as int].proxy.port == 0);
                return Err(ConfigError::ProxyPortZero);
            }
            i = i + 1;
        }
        Ok(())
    }
}

impl ReassemblerConfig {
    /// What is wrong with the configuration, if anything.
    pub open spec fn problem(&self) -> Option<ConfigError> {
        common_problem(
            self.chunk_size,
            self.data_send_timeout_secs,
            self.heartbeat_secs,
            self.reorder_window_bytes,
        )
    }

    /// Checks the configuration, except for its ports.
    pub fn validate(&self) -> (r: Result<(), ConfigError>)
        ensures
            r == verdict(self.problem()),
    {
        validate_common(
            self.chunk_size,
            self.data_send_timeout_secs,
            self.heartbeat_secs,
            self.reorder_window_bytes,
        )
    }
}

// ── Ports ─────────────────────────────────────────────────────────────

/// Where the first `c` stands in a text, or its end.
pub open spec fn find(s: Seq<char>, c: char) -> int
    decreases s.len(),
{
    if s.len() == 0 {
        0
    } else if s[0] == c {
        0
    } else {
        1 + find(s.skip(1), c)
    }
}

/// The numbers from `start` to `end`.
pub open spec fn run_of(start: u16, end: u16) -> Seq<u16> {
    Seq::new((end - start + 1) as nat, |i: int| (start + i) as u16)
}

/// The ports that a text names: two numbers around a `-` name a range.
pub open spec fn ports_in(s: Seq<char>) -> Result<Seq<u16>, ConfigError> {
    let at = find(s, '-');
    if at < s.len() {
        match (u16_value(trim(s.take(at))), u16_value(trim(s.skip(at + 1)))) {
            (Some(start), Some(end)) => if start > end {
                Err(ConfigError::RangeReversed)
            } else if end - start + 1 > MAX_PORTS {
                Err(ConfigError::TooManyPorts((end - start + 1) as usize))
            } else {
                Ok(run_of(start, end))
            },
            _ => Err(ConfigError::BadPort),
        }
    } else {
        match u16_value(trim(s)) {
            Some(port) => Ok(seq![port]),
            None => Err(ConfigError::BadPort),
        }
    }
}

/// A list without what stands in it again, in the order of first appearance.
pub open spec fn dedup(s: Seq<u16>) -> Seq<u16>
    decreases s.len(),
{
    if s.len() == 0 {
        Seq::empty()
    } else {
        let d = dedup(s.drop_last());
        if d.contains(s.last()) {
            d
        } else {
            d.push(s.last())
        }
    }
}

/// The ports to listen on.
pub open spec fn port_list(ports: Ports) -> Result<Seq<u16>, ConfigError> {
    let named = match ports {
        Ports::List(v) => Ok(v@),
        Ports::Range(s) => ports_in(s@),
    };
    match named {
        Err(e) => Err(e),
        Ok(all) => if all.len() > MAX_PORTS {
            Err(ConfigError::TooManyPorts(all.len() as usize))
        } else if all.contains(0) {
            Err(ConfigError::PortZero)
        } else if all.len() == 0 {
            Err(ConfigError::NoPorts)
        } else {
            Ok(dedup(all))
        },
    }
}

fn find_char(s: &Vec<char>, c: char) -> (r: usize)
    ensures
        r == find(s@, c),
        r <= s@.len(),
{
    let mut i: usize = 0;
    assert(s@.skip(0) =~= s@);
    while i < s.len()
        invariant
            i <= s@.len(),
            find(s@, c) == i + find(s@.skip(i as int), c),
        decreases s.len() - i,
    {
        if s[i] == c {
            return i;
        }
        assert(s@.skip(i as int).skip(1) =~= s@.skip(i + 1));
        i = i + 1;
    }
    i
}

/// Reads the ports that a text names.
fn parse_range(s: &str) -> (r: Result<Vec<u16>, ConfigError>)
    ensures
        r is Ok <==> ports_in(s@) is Ok,
        r is Ok ==> r->Ok_0@ == ports_in(s@)->Ok_0,
        r is Err ==> r->Err_0 == ports_in(s@)->Err_0,
{
    let chars = chars_of(s);
    let n: usize = chars.len();
    let at: usize = find_char(&chars, '-');
    if at == n {
        assert(chars@.subrange(0, n as int) =~= s@);
        return match parse_u16(&trimmed(&chars, 0, n)) {
            Some(port) => {
                let r: Vec<u16> = vec![port];
                assert(r@ =~= seq![port]);
                Ok(r)
            },
            None => Err(ConfigError::BadPort),
        };
    }
    assert(chars@.subrange(0, at as int) =~= s@.take(at as int));
    assert(chars@.subrange(at + 1, n as int) =~= s@.skip(at + 1));
    let start: u16 = match parse_u16(&trimmed(&chars, 0, at)) {
        Some(v) => v,
        None => {
            return Err(ConfigError::BadPort);
        },
    };
    let end: u16 = match parse_u16(&trimmed(&chars, at + 1, n)) {
        Some(v) => v,
        None => {
            return Err(ConfigError::BadPort);
        },
    };
    if start > end {
        return Err(ConfigError::RangeReversed);
    }
    let count: usize = end as usize - start as usize + 1;
    if count > MAX_PORTS {
        return Err(ConfigError::TooManyPorts(count));
    }
    let mut out: Vec<u16> = Vec::new();
    while out.len() < count
        invariant
            start <= end,
            count == end - start + 1,
            out@.len() <= count,
            forall|j: int| 0 <= j < out@.len() ==> #[trigger] out@[j] == start + j,
        decreases count - out.len(),
    {
        out.push(start + out.len() as u16);
    }
    assert(out@ =~= run_of(start, end));
    Ok(out)
}

fn holds(v: &Vec<u16>, x: u16) -> (r: bool)
    ensures
        r == v@.contains(x),
{
    let mut i: usize = 0;
    while i < v.len()
        invariant
            i <= v@.len(),
            forall|j: int| 0 <= j < i ==> #[trigger] v@[j] != x,
        decreases v.len() - i,
    {
        if v[i] == x {
            return true;
        }
        i = i + 1;
    }
    false
}

/// The ports to listen on: each once, in the order in which they are named.
pub fn parse_ports(ports: &Ports) -> (r: Result<Vec<u16>, ConfigError>)
    ensures
        r is Ok <==> port_list(*ports) is Ok,
        r is Ok ==> r->Ok_0@ == port_list(*ports)->Ok_0,
        r is Err ==> r->Err_0 == port_list(*ports)->Err_0,
{
    let all: Vec<u16> = match ports {
        Ports::List(v) => v.clone(),
        Ports::Range(s) => match parse_range(s.as_str()) {
            Ok(v) => v,
            Err(e) => {
                return Err(e);
            },
        },
    };
    if all.len() > MAX_PORTS {
        return Err(ConfigError::TooManyPorts(all.len()));
    }
    if holds(&all, 0) {
        return Err(ConfigError::PortZero);
    }
    if all.len() == 0 {
        return Err(ConfigError::NoPorts);
    }
    let mut out: Vec<u16> = Vec::new();
    let mut i: usize = 0;
    assert(all@.take(0) =~= Seq::empty());
    assert(out@ =~= dedup(all@.take(0)));
    while i < all.len()
        invariant
            i <= all@.len(),
            out@ == dedup(all@.take(i as int)),
        decreases all.len() - i,
    {
        assert(all@.take(i + 1).drop_last() =~= all@.take(i as int));
        if !holds(&out, all[i]) {
            out.push(all[i]);
        }
        i = i + 1;
    }
    assert(all@.take(i as int) =~= all@);
    Ok(out)
}

/// A list of ports to listen on is not empty and not too long, names no port twice
/// and never port 0, and holds what the configuration names and nothing else.
pub proof fn law_port_list(ports: Ports)
    requires
        port_list(ports) is Ok,
    ensures
        ({
            let out = port_list(ports)->Ok_0;
            &&& 1 <= out.len() <= MAX_PORTS
            &&& out.no_duplicates()
            &&& !out.contains(0)
            &&& ports matches Ports::List(v) ==> forall|p: u16|
                out.contains(p) <==> #[trigger] v@.contains(p)
            &&& ports matches Ports::Range(s) ==> out == ports_in(s@)->Ok_0
        }),
{
    let all = match ports {
        Ports::List(v) => v@,
        Ports::Range(s) => ports_in(s@)->Ok_0,
    };
    lemma_dedup(all);
    let out = dedup(all);
    assert(all.contains(all[0]));
    assert(out.contains(all[0]));
    assert(!out.contains(0)) by {
        if out.contains(0) {
            assert(all.contains(0));
        }
    }
    if ports is Range {
        assert(all.no_duplicates());
        lemma_dedup_distinct(all);
    }
}

proof fn lemma_dedup(s: Seq<u16>)
    ensures
        dedup(s).no_duplicates(),
        dedup(s).len() <= s.len(),
        forall|p: u16| #[trigger] dedup(s).contains(p) <==> s.contains(p),
        s.len() > 0 ==> dedup(s).len() > 0,
    decreases s.len(),
{
    if s.len() > 0 {
        let less = s.drop_last();
        lemma_dedup(less);
        let d = dedup(less);
        let last = s.last();
        assert forall|p: u16| s.contains(p) <==> less.contains(p) || p == last by {
            if s.contains(p) && p != last {
                let i = s.index_of(p);
                assert(less[i] == p);
            }
            if less.contains(p) {
                let i = less.index_of(p);
                assert(s[i] == p);
            }
            assert(s[s.len() - 1] == last);
        }
        assert forall|p: u16| #[trigger] dedup(s).contains(p) <==> s.contains(p) by {
            assert(d.contains(p) <==> less.contains(p));
            if !d.contains(last) {
                assert(d.push(last)[d.len() as int] == last);
                if d.contains(p) {
                    let i = d.index_of(p);
                    assert(d.push(last)[i] == p);
                }
                if d.push(last).contains(p) && p != last {
                    let i = d.push(last).index_of(p);
                    assert(d[i] == p);
                }
            }
        }
    }
}

/// Dropping repetitions twice comes to the same as once.
pub proof fn law_dedup_is_idempotent(s: Seq<u16>)
    ensures
        dedup(dedup(s)) == dedup(s),
{
    lemma_dedup(s);
    lemma_dedup_distinct(dedup(s));
}

proof fn lemma_dedup_distinct(s: Seq<u16>)
    requires
        s.no_duplicates(),
    ensures
        dedup(s) == s,
    decreases s.len(),
{
    if s.len() > 0 {
        let less = s.drop_last();
        lemma_dedup_distinct(less);
        assert(!less.contains(s.last())) by {
            if less.contains(s.last()) {
                let i = less.index_of(s.last());
                assert(s[i] == s[s.len() - 1]);
            }
        }
        assert(less.push(s.last()) =~= s);
    } else {
        assert(s =~= Seq::empty());
    }
}

// ── From configuration to run ─────────────────────────────────────────

/// What to run.
pub enum Plan {
    Splitter(splitter::SplitterConfig),
    Reassembler(reassembler::ReassemblerConfig),
}

/// Why a configuration gives nothing to run, if it does not.
pub open spec fn plan_problem(cfg: Config) -> Option<ConfigError> {
    if cfg.mode@ == "splitter"@ {
        match cfg.splitter {
            None => Some(ConfigError::MissingSection),
            Some(sc) => if sc.problem() is Some {
                sc.problem()
            } else if sc.tunnel@.len() == 0 {
                Some(ConfigError::NoTunnels)
            } else {
                None
            },
        }
    } else if cfg.mode@ == "reassembler"@ {
        match cfg.reassembler {
            None => Some(ConfigError::MissingSection),
            Some(rc) => if rc.problem() is Some {
                rc.problem()
            } else {
                match port_list(rc.ports) {
                    Err(e) => Some(e),
                    Ok(_) => None,
                }
            },
        }
    } else {
        Some(ConfigError::UnknownMode)
    }
}

/// A splitter runs with what its section says.
pub open spec fn runs_splitter(run: splitter::SplitterConfig, sc: SplitterConfig) -> bool {
    &&& run.listen_addr == sc.listen
    &&& run.chunk_size == sc.chunk_size
    &&& run.data_send_timeout_secs == sc.data_send_timeout_secs
    &&& run.heartbeat_secs == sc.heartbeat_secs
    &&& run.reorder_window_bytes == sc.reorder_window_bytes
    &&& run.tunnels@.len() == sc.tunnel@.len()
    &&& forall|i: int|
        0 <= i < sc.tunnel@.len() ==> (#[trigger] run.tunnels@[i]).proxy == sc.tunnel@[i].proxy
            && run.tunnels@[i].target@ == sc.tunnel@[i].target@ && run.tunnels@[i].port
            == sc.tunnel@[i].port
}

/// A reassembler runs with what its section says, on the ports that it lists.
pub open spec fn runs_reassembler(
    run: reassembler::ReassemblerConfig,
    rc: ReassemblerConfig,
) -> bool {
    &&& run.listen_ip == rc.listen
    &&& run.listen_ports@ == port_list(rc.ports)->Ok_0
    &&& run.local_target == rc.local_target
    &&& run.chunk_size == rc.chunk_size
    &&& run.data_send_timeout_secs == rc.data_send_timeout_secs
    &&& run.heartbeat_secs == rc.heartbeat_secs
    &&& run.reorder_window_bytes == rc.reorder_window_bytes
}

/// Checks a configuration and says what to run.
pub fn plan(cfg: &Config) -> (r: Result<Plan, ConfigError>)
    ensures
        r is Ok <==> plan_problem(*cfg) is None,
        r is Err ==> Some(r->Err_0) == plan_problem(*cfg),
        r is Ok ==> match r->Ok_0 {
            Plan::Splitter(run) => cfg.mode@ == "splitter"@ && runs_splitter(
                run,
                cfg.splitter->Some_0,
            ),
            Plan::Reassembler(run) => cfg.mode@ == "reassembler"@ && cfg.mode@ != "splitter"@
                && runs_reassembler(run, cfg.reassembler->Some_0),
        },
{
    if same_text(cfg.mode.as_str(), "splitter") {
        let sc = match &cfg.splitter {
            Some(sc) => sc,
            None => {
                return Err(ConfigError::MissingSection);
            },
        };
        match sc.validate() {
            Ok(_) => {},
            Err(e) => {
                return Err(e);
            },
        }
        if sc.tunnel.len() == 0 {
            return Err(ConfigError::NoTunnels);
        }
        let mut tunnels: Vec<TunnelEndpoint> = Vec::new();
        let mut i: usize = 0;
        while i < sc.tunnel.len()
            invariant
                i <= sc.tunnel@.len(),
                tunnels@.len() == i,
                forall|j: int|
                    0 <= j < i ==> (#[trigger] tunnels@[j]).proxy == sc.tunnel@[j].proxy
                        && tunnels@[j].target@ == sc.tunnel@[j].target@ && tunnels@[j].port
                        == sc.tunnel@[j].port,
            decreases sc.tunnel.len() - i,
        {
            let t = &sc.tunnel[i];
            tunnels.push(
                TunnelEndpoint { proxy: t.proxy, target: t.target.clone(), port: t.port },
            );
            i = i + 1;
        }
        return Ok(
            Plan::Splitter(
                splitter::SplitterConfig {
                    listen_addr: sc.listen,
                    tunnels,
                    chunk_size: sc.chunk_size,
                    data_send_timeout_secs: sc.data_send_timeout_secs,
                    heartbeat_secs: sc.heartbeat_secs,
                    reorder_window_bytes: sc.reorder_window_bytes as usize,
                },
            ),
        );
    }
    if same_text(cfg.mode.as_str(), "reassembler") {
        let rc = match &cfg.reassembler {
            Some(rc) => rc,
            None => {
                return Err(ConfigError::MissingSection);
            },
        };
        match rc.validate() {
            Ok(_) => {},
            Err(e) => {
                return Err(e);
            },
        }
        let listen_ports = match parse_ports(&rc.ports) {
            Ok(v) => v,
            Err(e) => {
                return Err(e);
            },
        };
        return Ok(
            Plan::Reassembler(
                reassembler::ReassemblerConfig {
                    listen_ip: rc.listen,
                    listen_ports,
                    local_target: rc.local_target,
                    chunk_size: rc.chunk_size,
                    data_send_timeout_secs: rc.data_send_timeout_secs,
                    heartbeat_secs: rc.heartbeat_secs,
                    reorder_window_bytes: rc.reorder_window_bytes as usize,
                },
            ),
        );
    }
    Err(ConfigError::UnknownMode)
}

/// A splitter's configuration that can be run has a chunk size that a frame can carry, a
/// window that holds a chunk, and ports that can be connected to.
pub proof fn law_runnable_splitter_is_sound(sc: SplitterConfig)
    requires
        sc.problem() is None,
    ensures
        MIN_CHUNK <= sc.chunk_size <= MAX_PAYLOAD,
        sc.chunk_size <= sc.reorder_window_bytes <= MAX_WINDOW_BYTES,
        sc.data_send_timeout_secs >= 1 && sc.heartbeat_secs >= 1,
        forall|i: int|
            0 <= i < sc.tunnel@.len() ==> (#[trigger] sc.tunnel@[i]).port != 0
                && sc.tunnel@[i].proxy.port != 0,
{
}

/// A reassembler's configuration that can be run has a chunk size that a frame can carry,
/// a window that holds a chunk, and ports that can be listened on.
pub proof fn law_runnable_reassembler_is_sound(rc: ReassemblerConfig)
    requires
        rc.problem() is None,
        port_list(rc.ports) is Ok,
    ensures
        MIN_CHUNK <= rc.chunk_size <= MAX_PAYLOAD,
        rc.chunk_size <= rc.reorder_window_bytes <= MAX_WINDOW_BYTES,
        rc.data_send_timeout_secs >= 1 && rc.heartbeat_secs >= 1,
        port_list(rc.ports)->Ok_0.len() >= 1 && !port_list(rc.ports)->Ok_0.contains(0),
{
    law_port_list(rc.ports);
}

} // verus!
