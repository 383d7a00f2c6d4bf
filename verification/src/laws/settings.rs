//! Settings: which can be run with, why others cannot, and which ports they name.

use crate::config::{
    common_problem, dedup, find, plan_problem, port_list, ports_in, run_of, runs_reassembler,
    runs_splitter, verdict, window_problem,
    Config, ConfigError, Ports, ReassemblerConfig, SplitterConfig, LOCALHOST, MAX_PORTS,
    MAX_WINDOW_BYTES,
};
use crate::text::{trim, u16_value};
use vstd::prelude::*;

verus! {

/// The limits of the settings, in plain numbers.
pub proof fn law_setting_limits()
    ensures
        MAX_PORTS == 256,
        MAX_WINDOW_BYTES == 1_073_741_824,
        LOCALHOST == 127 * 0x100_0000 + 1,
{
}

/// What is wrong with a setting is an error, and nothing wrong is none.
pub proof fn law_verdicts(e: ConfigError)
    ensures
        verdict(None) == Ok::<(), ConfigError>(()),
        verdict(Some(e)) == Err::<(), ConfigError>(e),
{
}

/// A window must hold a chunk, and may be 1 GiB at most.
pub proof fn law_windows(bytes: u64, chunk: u64)
    ensures
        window_problem(bytes, chunk) is None <==> chunk <= bytes && bytes <= 1_073_741_824,
        bytes < chunk ==> window_problem(bytes, chunk) == Some(ConfigError::WindowTooSmall),
        chunk <= bytes && bytes > 1_073_741_824 ==> window_problem(bytes, chunk) == Some(
            ConfigError::WindowTooLarge,
        ),
{
}

/// The settings that both ends share: a chunk is 512 to 65535 bytes, both times are one
/// second at least, and the window fits. Each error comes when its setting is wrong and
/// those before it are right.
pub proof fn law_shared_settings(chunk: usize, timeout: u64, heartbeat: u64, window: u64)
    ensures
        ({
            let p = common_problem(chunk, timeout, heartbeat, window);
            let sized = 512 <= chunk <= 65535;
            &&& p is None <==> sized && timeout >= 1 && heartbeat >= 1 && chunk <= window && window
                <= 1_073_741_824
            &&& p == Some(ConfigError::ChunkSize) <==> !sized
            &&& p == Some(ConfigError::ZeroDataSendTimeout) <==> sized && timeout == 0
            &&& p == Some(ConfigError::ZeroHeartbeat) <==> sized && timeout >= 1 && heartbeat == 0
            &&& p == Some(ConfigError::WindowTooSmall) <==> sized && timeout >= 1 && heartbeat >= 1
                && window < chunk
            &&& p == Some(ConfigError::WindowTooLarge) <==> sized && timeout >= 1 && heartbeat >= 1
                && window >= chunk && window > 1_073_741_824
        }),
{
}

/// The settings of a splitter: the shared ones, and ports other than 0 for every tunnel and
/// every proxy.
pub proof fn law_splitter_settings(sc: SplitterConfig)
    ensures
        ({
            let shared = common_problem(
                sc.chunk_size,
                sc.data_send_timeout_secs,
                sc.heartbeat_secs,
                sc.reorder_window_bytes,
            );
            let tunnels = forall|i: int|
                0 <= i < sc.tunnel@.len() ==> (#[trigger] sc.tunnel@[i]).port != 0;
            let proxies = forall|i: int|
                0 <= i < sc.tunnel@.len() ==> (#[trigger] sc.tunnel@[i]).proxy.port != 0;
            &&& shared is Some ==> sc.problem() == shared
            &&& shared is None && tunnels && proxies ==> sc.problem() is None
            &&& shared is None && !tunnels ==> sc.problem() == Some(ConfigError::TunnelPortZero)
            &&& shared is None && tunnels && !proxies ==> sc.problem() == Some(
                ConfigError::ProxyPortZero,
            )
        }),
{
}

/// The settings of a reassembler, its ports aside: the shared ones.
pub proof fn law_reassembler_settings(rc: ReassemblerConfig)
    ensures
        rc.problem() == common_problem(
            rc.chunk_size,
            rc.data_send_timeout_secs,
            rc.heartbeat_secs,
            rc.reorder_window_bytes,
        ),
{
}

/// What there is to run: the end that the mode names, if its section is there and sound; a
/// splitter needs a tunnel, a reassembler a port.
pub proof fn law_what_to_run(cfg: Config)
    ensures
        ({
            let p = plan_problem(cfg);
            let near = cfg.mode@ == "splitter"@;
            let far = !near && cfg.mode@ == "reassembler"@;
            let sc = cfg.splitter->Some_0;
            let rc = cfg.reassembler->Some_0;
            &&& !near && !far ==> p == Some(ConfigError::UnknownMode)
            &&& near && cfg.splitter is None ==> p == Some(ConfigError::MissingSection)
            &&& near && cfg.splitter is Some && sc.problem() is Some ==> p == sc.problem()
            &&& near && cfg.splitter is Some && sc.problem() is None && sc.tunnel@.len() == 0
                ==> p == Some(ConfigError::NoTunnels)
            &&& near && cfg.splitter is Some && sc.problem() is None && sc.tunnel@.len() > 0
                ==> p is None
            &&& far && cfg.reassembler is None ==> p == Some(ConfigError::MissingSection)
            &&& far && cfg.reassembler is Some && rc.problem() is Some ==> p == rc.problem()
            &&& far && cfg.reassembler is Some && rc.problem() is None && port_list(rc.ports) is Err
                ==> p == Some(port_list(rc.ports)->Err_0)
            &&& far && cfg.reassembler is Some && rc.problem() is None && port_list(rc.ports) is Ok
                ==> p is None
        }),
{
}

/// An end runs with what its section says, setting by setting.
pub proof fn law_run_with_what_is_said(
    near: crate::splitter::SplitterConfig,
    sc: SplitterConfig,
    far: crate::reassembler::ReassemblerConfig,
    rc: ReassemblerConfig,
    i: int,
)
    ensures
        runs_splitter(near, sc) ==> ({
            &&& near.listen_addr == sc.listen
            &&& near.chunk_size == sc.chunk_size
            &&& near.data_send_timeout_secs == sc.data_send_timeout_secs
            &&& near.heartbeat_secs == sc.heartbeat_secs
            &&& near.reorder_window_bytes == sc.reorder_window_bytes
            &&& near.tunnels@.len() == sc.tunnel@.len()
            &&& 0 <= i < sc.tunnel@.len() ==> near.tunnels@[i].proxy == sc.tunnel@[i].proxy
                && near.tunnels@[i].target@ == sc.tunnel@[i].target@ && near.tunnels@[i].port
                == sc.tunnel@[i].port
        }),
        runs_reassembler(far, rc) ==> ({
            &&& far.listen_ip == rc.listen
            &&& far.listen_ports@ == port_list(rc.ports)->Ok_0
            &&& far.local_target == rc.local_target
            &&& far.chunk_size == rc.chunk_size
            &&& far.data_send_timeout_secs == rc.data_send_timeout_secs
            &&& far.heartbeat_secs == rc.heartbeat_secs
            &&& far.reorder_window_bytes == rc.reorder_window_bytes
        }),
{
}

// ── Ports ─────────────────────────────────────────────────────────────

/// A list of ports without repetitions: a port that is named again changes nothing, and one
/// that is new comes last. So each stands where it was named first.
pub proof fn law_ports_without_repetitions(s: Seq<u16>, p: u16)
    ensures
        dedup(Seq::empty()) == Seq::<u16>::empty(),
        s.contains(p) ==> dedup(s.push(p)) == dedup(s),
        !s.contains(p) ==> dedup(s.push(p)) == dedup(s).push(p),
        forall|q: u16| #[trigger] dedup(s).contains(q) <==> s.contains(q),
        dedup(s).no_duplicates(),
{
    lemma_dedup_holds(s);
    assert(s.push(p).drop_last() =~= s);
    assert(dedup(s).contains(p) <==> s.contains(p));
}

proof fn lemma_dedup_holds(s: Seq<u16>)
    ensures
        forall|q: u16| #[trigger] dedup(s).contains(q) <==> s.contains(q),
        dedup(s).no_duplicates(),
    decreases s.len(),
{
    if s.len() > 0 {
        let less = s.drop_last();
        let last = s.last();
        lemma_dedup_holds(less);
        let d = dedup(less);
        assert(s =~= less.push(last));
        assert forall|q: u16| #[trigger] dedup(s).contains(q) <==> s.contains(q) by {
            assert(d.contains(q) <==> less.contains(q));
            lemma_push_holds(less, last, q);
            lemma_push_holds(d, last, q);
        }
        if !d.contains(last) {
            assert forall|i: int, j: int| 0 <= i < j < d.push(last).len() implies d.push(last)[i]
                != d.push(last)[j] by {
                if j == d.len() {
                    assert(d.contains(d[i]));
                }
            }
        }
    }
}

proof fn lemma_push_holds(s: Seq<u16>, x: u16, q: u16)
    ensures
        s.push(x).contains(q) <==> s.contains(q) || q == x,
{
    let t = s.push(x);
    assert(t[s.len() as int] == x);
    if s.contains(q) {
        assert(t[s.index_of(q)] == q);
    }
    if t.contains(q) && q != x {
        assert(s[t.index_of(q)] == q);
    }
}

/// Which ports are listened on: those that are named, if there are 1 to 256 of them and none
/// is 0, each once.
pub proof fn law_which_ports(ports: Ports)
    ensures
        ({
            let named = match ports {
                Ports::List(v) => Ok(v@),
                Ports::Range(s) => ports_in(s@),
            };
            let all = named->Ok_0;
            let got = port_list(ports);
            &&& named is Err ==> got == named
            &&& named is Ok && all.len() > 256 ==> got == Err::<Seq<u16>, ConfigError>(
                ConfigError::TooManyPorts(all.len() as usize),
            )
            &&& named is Ok && all.len() <= 256 && all.contains(0) ==> got == Err::<
                Seq<u16>,
                ConfigError,
            >(ConfigError::PortZero)
            &&& named is Ok && all.len() == 0 ==> got == Err::<Seq<u16>, ConfigError>(
                ConfigError::NoPorts,
            )
            &&& named is Ok && 1 <= all.len() <= 256 && !all.contains(0) ==> got == Ok::<
                Seq<u16>,
                ConfigError,
            >(dedup(all))
        }),
{
}

/// Two numbers around a dash name every port from the first to the second, both included,
/// 256 at most. White space around the numbers does not matter.
pub proof fn law_port_ranges(a: Seq<char>, b: Seq<char>)
    requires
        !a.contains('-'),
    ensures
        ({
            let first = u16_value(trim(a));
            let last = u16_value(trim(b));
            let got = ports_in(a + seq!['-'] + b);
            let x = first->Some_0;
            let y = last->Some_0;
            let both = first is Some && last is Some;
            &&& !both ==> got == Err::<Seq<u16>, ConfigError>(ConfigError::BadPort)
            &&& both && x > y ==> got == Err::<Seq<u16>, ConfigError>(ConfigError::RangeReversed)
            &&& both && x <= y && y - x >= 256 ==> got == Err::<Seq<u16>, ConfigError>(
                ConfigError::TooManyPorts((y - x + 1) as usize),
            )
            &&& both && x <= y && y - x < 256 ==> ({
                &&& got is Ok
                &&& got->Ok_0.len() == y - x + 1
                &&& forall|i: int| 0 <= i <= y - x ==> #[trigger] got->Ok_0[i] == x + i
            })
        }),
{
    let s = a + seq!['-'] + b;
    lemma_finds(a, b);
    assert(s.take(a.len() as int) =~= a);
    assert(s.skip(a.len() as int + 1) =~= b);
}

/// A text without a dash names one port.
pub proof fn law_single_ports(s: Seq<char>)
    requires
        !s.contains('-'),
    ensures
        u16_value(trim(s)) is Some ==> ports_in(s) == Ok::<Seq<u16>, ConfigError>(
            seq![u16_value(trim(s))->Some_0],
        ),
        u16_value(trim(s)) is None ==> ports_in(s) == Err::<Seq<u16>, ConfigError>(
            ConfigError::BadPort,
        ),
{
    lemma_finds_nothing(s);
}

/// The numbers of a run follow one another.
pub proof fn law_runs(start: u16, end: u16, i: int)
    requires
        start <= end,
        0 <= i <= end - start,
    ensures
        run_of(start, end).len() == end - start + 1,
        run_of(start, end)[i] == start + i,
{
}

proof fn lemma_finds(a: Seq<char>, b: Seq<char>)
    requires
        !a.contains('-'),
    ensures
        find(a + seq!['-'] + b, '-') == a.len(),
    decreases a.len(),
{
    let s = a + seq!['-'] + b;
    if a.len() > 0 {
        let less = a.skip(1);
        assert(a.contains(a[0]));
        assert(s[0] == a[0]);
        assert(!less.contains('-')) by {
            if less.contains('-') {
                assert(a[less.index_of('-') + 1] == '-');
            }
        }
        lemma_finds(less, b);
        assert(s.skip(1) =~= less + seq!['-'] + b);
    } else {
        assert(s[0] == '-');
    }
}

proof fn lemma_finds_nothing(s: Seq<char>)
    requires
        !s.contains('-'),
    ensures
        find(s, '-') == s.len(),
    decreases s.len(),
{
    if s.len() > 0 {
        let less = s.skip(1);
        assert(s.contains(s[0]));
        assert(!less.contains('-')) by {
            if less.contains('-') {
                assert(s[less.index_of('-') + 1] == '-');
            }
        }
        lemma_finds_nothing(less);
    }
}

} // verus!
