//! The far end of the tunnels: frames in, egress connections out.

use crate::addr::{law_normal_text, normal_text, normalize_ip, IpAddress, SocketAddress};
use crate::buf::{bytes_as_slice, bytes_content, MAX_BUFFER};
use crate::clock::{elapsed_secs, span, span_secs, SECOND};
use crate::frame::{
    data_frames, flagged, read_syn, Frame, FrameSource, FrameView, SynTarget, SynView, FLAG_DATA,
    FLAG_FIN, FLAG_RST, FLAG_SYN, MAX_PAYLOAD, MAX_PENDING_BYTES, MAX_PENDING_CIDS, PROTO_TCP,
    PROTO_UDP,
};
use crate::reorder::{
    arrives, contents, cut_from, entry_cap, fresh, law_delivers_everything, law_delivers_in_order,
    overflows, run, ReorderBuf, ReorderView,
};
use crate::socks5::{address_bytes, datagram, encode_udp_datagram, TargetAddr};
use crate::sums::{
    lemma_map_values_insert, lemma_map_values_remove, lemma_push_contains, lemma_total_empty,
    lemma_total_insert, lemma_total_remove, total,
};
use crate::tables::{
    egresses, egresses_contains, egresses_insert, egresses_keys, egresses_len, egresses_new,
    egresses_remove, lists_keys, stamps, stamps_contains, stamps_insert, stamps_len, stamps_new,
    stamps_remove, sweep_stamps, waiting, waiting_contains, waiting_insert, waiting_keys,
    waiting_len, waiting_new, waiting_remove, waiting_state,
};
use bytes::Bytes;
use dashmap::DashMap;
use vstd::prelude::*;

verus! {

/// How long a closed connection is remembered, so that its late frames are
/// answered with a reset instead of waiting for a SYN.
pub const CLOSED_TTL: u64 = 60 * SECOND;

/// How long a handshake may be under way: longer than any attempt to connect takes.
pub const HANDSHAKING_TTL: u64 = 120 * SECOND;

/// How many seconds a TCP connection may be idle.
pub const TCP_IDLE_TIMEOUT: u64 = 300;

/// How many seconds a UDP association may be idle.
pub const UDP_IDLE_TIMEOUT: u64 = 60;

/// Most frames that wait for one connection.
pub const MAX_PENDING_FRAMES_PER_CID: usize = 256;

/// How many seconds frames wait for a SYN.
pub const PENDING_TTL_SECS: u64 = 30;

/// What a reassembler runs with.
pub struct ReassemblerConfig {
    pub listen_ip: IpAddress,
    pub listen_ports: Vec<u16>,
    /// The SOCKS5 proxy that leads to the targets.
    pub local_target: SocketAddress,
    /// How many bytes to read from a target at once.
    pub chunk_size: usize,
    /// How long a frame may wait for a tunnel that takes it.
    pub data_send_timeout_secs: u64,
    /// How often to sweep.
    pub heartbeat_secs: u64,
    /// Byte budget of each connection's reorder window.
    pub reorder_window_bytes: usize,
}

/// How far the closing of an egress write half has come.
#[derive(Debug, Clone, Copy, PartialEq, Eq, Structural)]
pub enum HalfClose {
    /// Data may still be written.
    Open,
    /// It is being decided whether the write half can close.
    Closing,
    /// The write half is closed for good.
    Closed,
}

/// One connection to a target, on behalf of a client at the other end.
pub struct VirtConnDe {
    /// Tells this connection apart from another one under the same id.
    pub token: u64,
    pub reorder: ReorderBuf,
    /// The other end has sent all it will send.
    pub fin_received: bool,
    /// The number after the last one it sent.
    pub fin_seq: u64,
    pub half_close: HalfClose,
    /// A UDP association: datagrams, without order or end.
    pub is_udp: bool,
    /// The target has sent all it will send.
    pub egress_eof: bool,
    pub created_at: u64,
    pub last_active: u64,
    pub bytes_sent: u64,
    pub bytes_recv: u64,
    pub frames_sent: u64,
    pub frames_recv: u64,
}

/// A [`VirtConnDe`] as mathematical values.
#[verifier::ext_equal]
pub struct ConnView {
    pub token: u64,
    pub reorder: ReorderView,
    pub fin_received: bool,
    pub fin_seq: u64,
    pub half_close: HalfClose,
    pub is_udp: bool,
    pub egress_eof: bool,
    pub created_at: u64,
    pub last_active: u64,
    pub bytes_sent: u64,
    pub bytes_recv: u64,
    pub frames_sent: u64,
    pub frames_recv: u64,
}

impl View for VirtConnDe {
    type V = ConnView;

    open spec fn view(&self) -> ConnView {
        ConnView {
            token: self.token,
            reorder: self.reorder@,
            fin_received: self.fin_received,
            fin_seq: self.fin_seq,
            half_close: self.half_close,
            is_udp: self.is_udp,
            egress_eof: self.egress_eof,
            created_at: self.created_at,
            last_active: self.last_active,
            bytes_sent: self.bytes_sent,
            bytes_recv: self.bytes_recv,
            frames_sent: self.frames_sent,
            frames_recv: self.frames_recv,
        }
    }
}

impl ConnView {
    /// A connection that has just been set up.
    pub open spec fn new(token: u64, window: nat, is_udp: bool, now: u64) -> ConnView {
        ConnView {
            token,
            reorder: fresh(window, entry_cap(window)),
            fin_received: false,
            fin_seq: 0,
            half_close: HalfClose::Open,
            is_udp,
            egress_eof: false,
            created_at: now,
            last_active: now,
            bytes_sent: 0,
            bytes_recv: 0,
            frames_sent: 0,
            frames_recv: 0,
        }
    }

    /// Tries to close the egress write half, and says whether this call closed it.
    /// It closes when everything up to the FIN has been delivered, or by force.
    pub open spec fn close_write(self, force: bool) -> (ConnView, bool) {
        if if force {
            self.half_close != HalfClose::Closed
        } else {
            self.half_close == HalfClose::Open && self.reorder.expected >= self.fin_seq
        } {
            (ConnView { half_close: HalfClose::Closed, ..self }, true)
        } else {
            (self, false)
        }
    }

    /// Both directions have ended.
    pub open spec fn is_done(self) -> bool {
        self.fin_received && self.egress_eof && self.half_close == HalfClose::Closed
    }

    /// A frame with `len` payload bytes came from the other end.
    pub open spec fn received(self, len: nat, now: u64) -> ConnView {
        ConnView {
            bytes_recv: self.bytes_recv.wrapping_add(len as u64),
            frames_recv: self.frames_recv.wrapping_add(1),
            last_active: now,
            ..self
        }
    }

    /// A frame with `len` payload bytes went to the other end.
    pub open spec fn sent(self, len: nat, now: u64) -> ConnView {
        ConnView {
            bytes_sent: self.bytes_sent.wrapping_add(len as u64),
            frames_sent: self.frames_sent.wrapping_add(1),
            last_active: now,
            ..self
        }
    }
}

impl VirtConnDe {
    /// A connection that has just been set up, whose window holds `window` bytes.
    pub fn new(token: u64, window: usize, is_udp: bool, now: u64) -> (r: Self)
        ensures
            r.reorder.wf(),
            r@ == ConnView::new(token, window as nat, is_udp, now),
    {
        VirtConnDe {
            token,
            reorder: ReorderBuf::with_limit(window),
            fin_received: false,
            fin_seq: 0,
            half_close: HalfClose::Open,
            is_udp,
            egress_eof: false,
            created_at: now,
            last_active: now,
            bytes_sent: 0,
            bytes_recv: 0,
            frames_sent: 0,
            frames_recv: 0,
        }
    }

    /// Closes the egress write half when everything up to the FIN has been
    /// delivered, or by force, and says whether this call closed it.
    pub fn close_write_half(&mut self, force: bool) -> (r: bool)
        ensures
            (final(self)@, r) == old(self)@.close_write(force),
            final(self).reorder == old(self).reorder,
    {
        if force {
            if self.half_close == HalfClose::Closed {
                return false;
            }
            self.half_close = HalfClose::Closed;
            return true;
        }
        if self.half_close != HalfClose::Open {
            return false;
        }
        self.half_close = HalfClose::Closing;
        if !self.reorder.is_complete_through(self.fin_seq) {
            self.half_close = HalfClose::Open;
            return false;
        }
        self.half_close = HalfClose::Closed;
        true
    }

    /// Whether both directions have ended.
    pub fn is_done(&self) -> (r: bool)
        ensures
            r == self@.is_done(),
    {
        self.fin_received && self.egress_eof && self.half_close == HalfClose::Closed
    }

    /// Counts a frame from the other end.
    pub fn count_received(&mut self, len: u64, now: u64)
        ensures
            final(self)@ == old(self)@.received(len as nat, now),
            final(self).reorder == old(self).reorder,
    {
        self.bytes_recv = self.bytes_recv.wrapping_add(len);
        self.frames_recv = self.frames_recv.wrapping_add(1);
        self.last_active = now;
    }

    /// Counts a frame to the other end.
    pub fn count_sent(&mut self, len: u64, now: u64)
        ensures
            final(self)@ == old(self)@.sent(len as nat, now),
            final(self).reorder == old(self).reorder,
    {
        self.bytes_sent = self.bytes_sent.wrapping_add(len);
        self.frames_sent = self.frames_sent.wrapping_add(1);
        self.last_active = now;
    }
}

/// Frames that came before the connection they belong to was there.
pub struct PendingEntry {
    pub frames: Vec<Frame>,
    pub since: u64,
    /// Payload bytes of the data frames, which count against the common budget.
    pub bytes: usize,
    /// The connection was given up while it was being set up.
    pub cancelled: bool,
    /// An attempt to set the connection up is under way.
    pub connecting: bool,
}

/// A [`PendingEntry`] as mathematical values.
#[verifier::ext_equal]
pub struct PendingView {
    pub frames: Seq<FrameView>,
    pub since: u64,
    pub bytes: nat,
    pub cancelled: bool,
    pub connecting: bool,
}

/// The views of a list of frames.
pub open spec fn frame_views(frames: Seq<Frame>) -> Seq<FrameView> {
    frames.map_values(|f: Frame| f@)
}

impl View for PendingEntry {
    type V = PendingView;

    open spec fn view(&self) -> PendingView {
        PendingView {
            frames: frame_views(self.frames@),
            since: self.since,
            bytes: self.bytes as nat,
            cancelled: self.cancelled,
            connecting: self.connecting,
        }
    }
}

impl PendingEntry {
    /// An entry without frames.
    pub fn new(now: u64) -> (r: Self)
        ensures
            r@ == PendingView::new(now),
    {
        let r = PendingEntry {
            frames: Vec::new(),
            since: now,
            bytes: 0,
            cancelled: false,
            connecting: false,
        };
        assert(r@.frames =~= Seq::empty());
        r
    }
}

impl PendingView {
    pub open spec fn new(now: u64) -> PendingView {
        PendingView {
            frames: Seq::empty(),
            since: now,
            bytes: 0,
            cancelled: false,
            connecting: false,
        }
    }
}

/// What the caller has to do. The actions of one call are carried out in order.
#[derive(Debug)]
pub enum Action {
    /// Hand the frame to the tunnels.
    Send(Frame),
    /// Connect to the target, then report `connected`, or `egress_failed`, or
    /// `handshake_cancelled` when `CancelHandshake` came first.
    Connect { cid: u32, target: SynTarget },
    /// Bind the sockets of a UDP association, then report `connected` or
    /// `egress_failed`.
    BindUdp { cid: u32 },
    /// Give up an attempt to connect that is under way.
    CancelHandshake { cid: u32 },
    /// Stop the connection's tasks at once.
    Teardown { cid: u32 },
    /// Drop the connection's handles; what is queued is still written.
    Release { cid: u32 },
    /// Queue the chunks for the target, in order, up to the first that is refused,
    /// then report `delivered` before anything else happens.
    Deliver { cid: u32, token: u64, chunks: Vec<Bytes>, count: Option<u64> },
    /// Send a wrapped datagram to the target that it names.
    Forward { cid: u32, datagram: Bytes },
    /// Close the egress write half behind what is queued.
    CloseWrite { cid: u32 },
    /// Report `half_close_timeout` after the fallback time.
    ArmForceClose { cid: u32, token: u64 },
}

/// An [`Action`] as mathematical values.
#[verifier::ext_equal]
pub enum ActionView {
    Send(FrameView),
    Connect { cid: u32, target: SynView },
    BindUdp { cid: u32 },
    CancelHandshake { cid: u32 },
    Teardown { cid: u32 },
    Release { cid: u32 },
    Deliver { cid: u32, token: u64, chunks: Seq<Seq<u8>>, count: Option<u64> },
    Forward { cid: u32, datagram: Seq<u8> },
    CloseWrite { cid: u32 },
    ArmForceClose { cid: u32, token: u64 },
}

impl View for Action {
    type V = ActionView;

    open spec fn view(&self) -> ActionView {
        match *self {
            Action::Send(f) => ActionView::Send(f@),
            Action::Connect { cid, target } => ActionView::Connect { cid, target: target@ },
            Action::BindUdp { cid } => ActionView::BindUdp { cid },
            Action::CancelHandshake { cid } => ActionView::CancelHandshake { cid },
            Action::Teardown { cid } => ActionView::Teardown { cid },
            Action::Release { cid } => ActionView::Release { cid },
            Action::Deliver { cid, token, chunks, count } => ActionView::Deliver {
                cid,
                token,
                chunks: contents(chunks@),
                count,
            },
            Action::Forward { cid, datagram } => ActionView::Forward {
                cid,
                datagram: bytes_content(datagram),
            },
            Action::CloseWrite { cid } => ActionView::CloseWrite { cid },
            Action::ArmForceClose { cid, token } => ActionView::ArmForceClose { cid, token },
        }
    }
}

/// The views of a list of actions.
pub open spec fn action_views(actions: Seq<Action>) -> Seq<ActionView> {
    actions.map_values(|a: Action| a@)
}

/// Closes the egress write half, if that is due.
pub open spec fn close_action(cid: u32, shut: bool) -> Seq<ActionView> {
    if shut {
        seq![ActionView::CloseWrite { cid }]
    } else {
        Seq::empty()
    }
}

/// What came of taking in the frames that waited for a connection.
#[verifier::ext_equal]
pub struct Replay {
    pub reorder: ReorderView,
    /// The chunks that are now in order.
    pub ready: Seq<Seq<u8>>,
    /// The number in the last FIN, if there was one.
    pub fin: Option<u64>,
    /// A chunk overflowed the window; what came after it was not looked at.
    pub broken: bool,
}

/// Taking in the frames that waited for a connection.
pub open spec fn replay(start: ReorderView, frames: Seq<FrameView>) -> Replay
    decreases frames.len(),
{
    if frames.len() == 0 {
        Replay { reorder: start, ready: Seq::empty(), fin: None, broken: false }
    } else {
        let done = replay(start, frames.drop_last());
        let f = frames.last();
        if done.broken {
            done
        } else if flagged(f.flags, FLAG_DATA) {
            let (w, r) = done.reorder.push(f.seq, f.payload);
            if r.overflow {
                Replay { broken: true, ..done }
            } else {
                Replay { reorder: w, ready: done.ready + r.ready, ..done }
            }
        } else if flagged(f.flags, FLAG_FIN) {
            Replay { fin: Some(f.seq), ..done }
        } else {
            done
        }
    }
}

/// Forwarding the datagrams that waited for an association.
pub open spec fn forwards(cid: u32, frames: Seq<FrameView>) -> Seq<ActionView>
    decreases frames.len(),
{
    if frames.len() == 0 {
        Seq::empty()
    } else {
        let done = forwards(cid, frames.drop_last());
        if flagged(frames.last().flags, FLAG_DATA) {
            done.push(ActionView::Forward { cid, datagram: frames.last().payload })
        } else {
            done
        }
    }
}

/// The state of a reassembler as mathematical values.
#[verifier::ext_equal]
pub struct ReassemblerView {
    /// Connections that are set up.
    pub conns: Map<u32, ConnView>,
    /// Frames that came before their connection was set up.
    pub pending: Map<u32, PendingView>,
    /// When each connection that is remembered as closed was closed.
    pub closed: Map<u32, u64>,
    /// When each handshake that is under way began.
    pub handshaking: Map<u32, u64>,
    /// Connections that were reset, since the count was last taken.
    pub resets: u64,
    /// Byte budget of each connection's reorder window.
    pub window: nat,
    /// The token of the next connection.
    pub next_token: u64,
}

/// How much of the byte budget an entry takes.
pub open spec fn pending_size() -> spec_fn(PendingView) -> nat {
    |p: PendingView| p.bytes
}

/// Payload bytes of the data frames in a list.
pub open spec fn data_bytes(frames: Seq<FrameView>) -> nat
    decreases frames.len(),
{
    if frames.len() == 0 {
        0
    } else {
        data_bytes(frames.drop_last()) + if flagged(frames.last().flags, FLAG_DATA) {
            frames.last().payload.len()
        } else {
            0
        }
    }
}

impl ReassemblerView {
    /// How many payload bytes wait, over all connections.
    pub open spec fn used(self) -> nat {
        total(self.pending, pending_size())
    }

    /// What waits is counted truly and stays within its limits.
    pub open spec fn inv(self) -> bool {
        &&& self.conns.dom().finite()
        &&& self.pending.dom().finite()
        &&& self.closed.dom().finite()
        &&& self.handshaking.dom().finite()
        &&& self.used() <= MAX_PENDING_BYTES
        &&& forall|cid: u32| #[trigger]
            self.pending.contains_key(cid) ==> self.pending[cid].frames.len()
                <= MAX_PENDING_FRAMES_PER_CID && self.pending[cid].bytes == data_bytes(
                self.pending[cid].frames,
            )
        &&& forall|cid: u32| #[trigger] self.conns.contains_key(cid) ==> self.conns[cid].reorder.inv()
    }

    /// Aborts the attempt to connect that an entry stands for, if there is one.
    pub open spec fn cancel(self, cid: u32) -> Seq<ActionView> {
        if self.pending.contains_key(cid) && self.pending[cid].connecting {
            seq![ActionView::CancelHandshake { cid }]
        } else {
            Seq::empty()
        }
    }

    /// A frame that had to wait is dropped, so the stream it belongs to is broken:
    /// its entry is cancelled, its id is closed and the other end is told.
    pub open spec fn fail_pending(self, cid: u32, now: u64) -> (ReassemblerView, Seq<ActionView>) {
        (
            ReassemblerView {
                pending: if self.pending.contains_key(cid) {
                    self.pending.insert(
                        cid,
                        PendingView { cancelled: true, ..self.pending[cid] },
                    )
                } else {
                    self.pending
                },
                closed: self.closed.insert(cid, now),
                ..self
            },
            self.cancel(cid).push(ActionView::Send(FrameView::rst(cid))),
        )
    }

    /// An entry is dropped with all its frames, and its stream fails in the same way.
    pub open spec fn evict(self, cid: u32, now: u64) -> (ReassemblerView, Seq<ActionView>) {
        (
            ReassemblerView {
                pending: self.pending.remove(cid),
                closed: self.closed.insert(cid, now),
                ..self
            },
            self.cancel(cid).push(ActionView::Send(FrameView::rst(cid))),
        )
    }

    /// The entry of a connection, or a new one where it has none.
    pub open spec fn entry(self, cid: u32, now: u64) -> PendingView {
        if self.pending.contains_key(cid) {
            self.pending[cid]
        } else {
            PendingView::new(now)
        }
    }

    /// A frame whose connection is not there has to wait. It counts with `need` bytes
    /// against the budget. It is dropped, and its stream fails, when there are too
    /// many connections, bytes or frames waiting already.
    pub open spec fn park(self, f: FrameView, need: nat, now: u64) -> (
        ReassemblerView,
        Seq<ActionView>,
    ) {
        let cid = f.conn_id;
        if !self.pending.contains_key(cid) && self.pending.dom().len() >= MAX_PENDING_CIDS {
            self.fail_pending(cid, now)
        } else {
            let (next, evicted, room) = self.reserve(cid, need, now);
            let entry = next.entry(cid, now);
            if room && entry.frames.len() < MAX_PENDING_FRAMES_PER_CID {
                (
                    ReassemblerView {
                        pending: next.pending.insert(
                            cid,
                            PendingView {
                                frames: entry.frames.push(f),
                                bytes: entry.bytes + need,
                                ..entry
                            },
                        ),
                        ..next
                    },
                    evicted,
                )
            } else {
                let (last, failed) = next.fail_pending(cid, now);
                (last, evicted + failed)
            }
        }
    }

    /// The state with a connection set to `c`.
    pub open spec fn with_conn(self, cid: u32, c: ConnView) -> ReassemblerView {
        ReassemblerView { conns: self.conns.insert(cid, c), ..self }
    }

    /// A connection is given up in both directions: it is forgotten, its id is
    /// closed, its tasks stop and the other end is told.
    pub open spec fn reset(self, cid: u32, now: u64) -> (ReassemblerView, Seq<ActionView>) {
        (
            ReassemblerView {
                conns: self.conns.remove(cid),
                closed: self.closed.insert(cid, now),
                resets: self.resets.wrapping_add(1),
                ..self
            },
            seq![ActionView::Teardown { cid }, ActionView::Send(FrameView::rst(cid))],
        )
    }

    /// A connection that has ended in both directions is forgotten and its id is
    /// closed.
    pub open spec fn finish(self, cid: u32, now: u64) -> (ReassemblerView, Seq<ActionView>) {
        if self.conns.contains_key(cid) && self.conns[cid].is_done() {
            (
                ReassemblerView {
                    conns: self.conns.remove(cid),
                    closed: self.closed.insert(cid, now),
                    ..self
                },
                seq![ActionView::Release { cid }],
            )
        } else {
            (self, Seq::empty())
        }
    }

    /// The other end has sent all it will send on a connection.
    pub open spec fn fin(self, cid: u32, fin_seq: u64, now: u64) -> (
        ReassemblerView,
        Seq<ActionView>,
    ) {
        let c = self.conns[cid];
        if c.fin_received {
            self.finish(cid, now)
        } else {
            let (d, shut) = ConnView { fin_received: true, fin_seq, ..c }.close_write(false);
            let (next, last) = self.with_conn(cid, d).finish(cid, now);
            (
                next,
                seq![ActionView::ArmForceClose { cid, token: c.token }] + close_action(cid, shut)
                    + last,
            )
        }
    }

    /// An attempt to set a connection up has failed: its frames are dropped, its id
    /// is closed and the other end is told.
    pub open spec fn abandon(self, cid: u32, now: u64) -> (ReassemblerView, Seq<ActionView>) {
        (self.withdraw(cid, now), seq![ActionView::Send(FrameView::rst(cid))])
    }

    /// An attempt to set a connection up is no longer wanted: its frames are dropped
    /// and its id is closed.
    pub open spec fn withdraw(self, cid: u32, now: u64) -> ReassemblerView {
        ReassemblerView {
            pending: self.pending.remove(cid),
            handshaking: self.handshaking.remove(cid),
            closed: self.closed.insert(cid, now),
            ..self
        }
    }

    /// A SYN asks for a connection. It is ignored where the connection is there, is
    /// being set up or was closed, and refused where it does not ask for TCP or UDP.
    pub open spec fn on_syn(self, f: FrameView, now: u64) -> (ReassemblerView, Seq<ActionView>) {
        let cid = f.conn_id;
        if self.conns.contains_key(cid) {
            (self, Seq::empty())
        } else if self.handshaking.contains_key(cid) {
            (
                ReassemblerView { handshaking: self.handshaking.insert(cid, now), ..self },
                Seq::empty(),
            )
        } else if self.closed.contains_key(cid) {
            (ReassemblerView { pending: self.pending.remove(cid), ..self }, Seq::empty())
        } else {
            match read_syn(f.payload) {
                Ok(target) => if target.proto == PROTO_TCP || target.proto == PROTO_UDP {
                    (
                        ReassemblerView {
                            pending: self.pending.insert(
                                cid,
                                PendingView { connecting: true, ..self.entry(cid, now) },
                            ),
                            handshaking: self.handshaking.insert(cid, now),
                            ..self
                        },
                        seq![
                            if target.proto == PROTO_UDP {
                                ActionView::BindUdp { cid }
                            } else {
                                ActionView::Connect { cid, target }
                            },
                        ],
                    )
                } else {
                    self.abandon(cid, now)
                },
                Err(_) => self.abandon(cid, now),
            }
        }
    }

    /// Data arrives. On a UDP association it is forwarded as it is; on a TCP
    /// connection it goes through the reorder window. Where the connection was
    /// closed the other end is told; where it is not there yet the frame waits.
    pub open spec fn on_data(self, f: FrameView, now: u64) -> (ReassemblerView, Seq<ActionView>) {
        let cid = f.conn_id;
        if self.conns.contains_key(cid) {
            let c = self.conns[cid];
            if c.is_udp {
                (
                    self.with_conn(cid, c.received(f.payload.len(), now)),
                    seq![ActionView::Forward { cid, datagram: f.payload }],
                )
            } else {
                let (w, r) = c.reorder.push(f.seq, f.payload);
                if r.accepted {
                    (
                        self.with_conn(cid, ConnView { reorder: w, ..c }),
                        seq![
                            ActionView::Deliver {
                                cid,
                                token: c.token,
                                chunks: r.ready,
                                count: Some(f.payload.len() as u64),
                            },
                        ],
                    )
                } else if r.overflow {
                    self.reset(cid, now)
                } else {
                    (self, Seq::empty())
                }
            }
        } else if self.closed.contains_key(cid) {
            (self, seq![ActionView::Send(FrameView::rst(cid))])
        } else {
            self.park(f, f.payload.len(), now)
        }
    }

    /// The other end ends its direction. A UDP association has no such thing; where
    /// the connection is not there yet the frame waits like data.
    pub open spec fn on_fin(self, f: FrameView, now: u64) -> (ReassemblerView, Seq<ActionView>) {
        let cid = f.conn_id;
        if self.conns.contains_key(cid) {
            if self.conns[cid].is_udp {
                (self, Seq::empty())
            } else {
                self.fin(cid, f.seq, now)
            }
        } else if self.closed.contains_key(cid) {
            (self, Seq::empty())
        } else {
            self.park(f, 0, now)
        }
    }

    /// The other end gives a connection up. An attempt to set it up is cancelled, and
    /// the id is closed in any case, for the SYN may still be on its way.
    pub open spec fn on_rst(self, f: FrameView, now: u64) -> (ReassemblerView, Seq<ActionView>) {
        let cid = f.conn_id;
        if self.conns.contains_key(cid) {
            (self.reset(cid, now).0, seq![ActionView::Teardown { cid }])
        } else {
            (self.fail_pending(cid, now).0, self.cancel(cid))
        }
    }

    /// A frame arrives. Of several flags the first in the order SYN, DATA, FIN, RST
    /// counts; a frame without any is ignored.
    pub open spec fn on_frame(self, f: FrameView, now: u64) -> (ReassemblerView, Seq<ActionView>) {
        if flagged(f.flags, FLAG_SYN) {
            self.on_syn(f, now)
        } else if flagged(f.flags, FLAG_DATA) {
            self.on_data(f, now)
        } else if flagged(f.flags, FLAG_FIN) {
            self.on_fin(f, now)
        } else if flagged(f.flags, FLAG_RST) {
            self.on_rst(f, now)
        } else {
            (self, Seq::empty())
        }
    }

    /// The connection that an event speaks of is still there.
    pub open spec fn is_current(self, cid: u32, token: u64) -> bool {
        self.conns.contains_key(cid) && self.conns[cid].token == token
    }

    /// Chunks were queued for the target, all of them or (`ok` is false) not. A
    /// refusal breaks the stream. A frame from the other end counts, and may be the
    /// last one that a FIN was waiting for.
    pub open spec fn on_delivered(
        self,
        cid: u32,
        token: u64,
        count: Option<u64>,
        ok: bool,
        now: u64,
    ) -> (ReassemblerView, Seq<ActionView>) {
        if !self.is_current(cid, token) {
            (self, Seq::empty())
        } else if !ok {
            self.reset(cid, now)
        } else if count is None {
            (self, Seq::empty())
        } else {
            let c = self.conns[cid].received(count->Some_0 as nat, now);
            if c.fin_received {
                let (d, shut) = c.close_write(false);
                let (next, last) = self.with_conn(cid, d).finish(cid, now);
                (next, close_action(cid, shut) + last)
            } else {
                (self.with_conn(cid, c), Seq::empty())
            }
        }
    }

    /// The connection has been set up. It is dropped again if it was given up in the
    /// meantime. Else the frames that waited are taken in, in the order in which they
    /// came. Returns the connection's token, if it is there in the end.
    pub open spec fn on_connected(self, cid: u32, is_udp: bool, now: u64) -> (
        ReassemblerView,
        Option<u64>,
        Seq<ActionView>,
    ) {
        if self.closed.contains_key(cid) || self.entry(cid, now).cancelled {
            (self.withdraw(cid, now), None, Seq::empty())
        } else {
            let token = self.next_token;
            let frames = self.entry(cid, now).frames;
            let c = ConnView::new(token, self.window, is_udp, now);
            let next = ReassemblerView {
                pending: self.pending.remove(cid),
                handshaking: self.handshaking.remove(cid),
                next_token: token.wrapping_add(1),
                ..self
            };
            if is_udp {
                (next.with_conn(cid, c), Some(token), forwards(cid, frames))
            } else {
                let replayed = replay(c.reorder, frames);
                let d = ConnView { reorder: replayed.reorder, ..c };
                let deliver = ActionView::Deliver {
                    cid,
                    token,
                    chunks: replayed.ready,
                    count: None,
                };
                if replayed.broken {
                    let (last, actions) = next.reset(cid, now);
                    (last, None, actions)
                } else if replayed.fin is Some {
                    let (last, actions) = next.with_conn(cid, d).fin(
                        cid,
                        replayed.fin->Some_0,
                        now,
                    );
                    (last, Some(token), seq![deliver] + actions)
                } else {
                    (next.with_conn(cid, d), Some(token), seq![deliver])
                }
            }
        }
    }

    /// The fallback time after a FIN is over: the egress write half closes whatever
    /// is still missing.
    pub open spec fn on_half_close_timeout(self, cid: u32, token: u64) -> (
        ReassemblerView,
        Seq<ActionView>,
    ) {
        if self.is_current(cid, token) {
            let (d, shut) = self.conns[cid].close_write(true);
            (self.with_conn(cid, d), close_action(cid, shut))
        } else {
            (self, Seq::empty())
        }
    }

    /// A response went to the other end, with `len` payload bytes.
    pub open spec fn on_response_sent(self, cid: u32, token: u64, len: nat, now: u64) -> ReassemblerView {
        if self.is_current(cid, token) {
            self.with_conn(cid, self.conns[cid].sent(len, now))
        } else {
            self
        }
    }

    /// A response could not be sent, so the stream to the other end is broken.
    pub open spec fn on_response_failed(self, cid: u32, token: u64, now: u64) -> (
        ReassemblerView,
        Seq<ActionView>,
    ) {
        if self.is_current(cid, token) {
            self.reset(cid, now)
        } else {
            (self, Seq::empty())
        }
    }

    /// The target has sent all it will send, and the other end was told by a FIN, or
    /// (`fin_sent` is false) could not be, and is told by an RST. The connection
    /// stays until the other direction ends too.
    pub open spec fn on_egress_ended(self, cid: u32, token: u64, fin_sent: bool, now: u64) -> (
        ReassemblerView,
        Seq<ActionView>,
    ) {
        let told = if fin_sent {
            Seq::empty()
        } else {
            seq![ActionView::Send(FrameView::rst(cid))]
        };
        if self.is_current(cid, token) {
            let (next, last) = self.with_conn(
                cid,
                ConnView { egress_eof: true, ..self.conns[cid] },
            ).finish(cid, now);
            (next, told + last)
        } else {
            (self, told)
        }
    }

    /// A connection has been idle for too long.
    pub open spec fn is_idle(self, cid: u32, now: u64) -> bool {
        self.conns.contains_key(cid) && span_secs(now, self.conns[cid].last_active) > (
        if self.conns[cid].is_udp {
            UDP_IDLE_TIMEOUT
        } else {
            TCP_IDLE_TIMEOUT
        })
    }

    /// Frames have waited for too long.
    pub open spec fn is_stale(self, cid: u32, now: u64) -> bool {
        self.pending.contains_key(cid) && span_secs(now, self.pending[cid].since)
            >= PENDING_TTL_SECS
    }

    /// The state after everything that is out of date has been removed: idle
    /// connections and stale frames, whose ids are closed, and what is remembered of
    /// connections that were closed, or began to be set up, long ago.
    pub open spec fn swept(self, now: u64) -> ReassemblerView {
        ReassemblerView {
            conns: self.conns.restrict(Set::new(|cid: u32| !self.is_idle(cid, now))),
            pending: self.pending.restrict(Set::new(|cid: u32| !self.is_stale(cid, now))),
            closed: Map::new(
                |cid: u32|
                    self.is_idle(cid, now) || self.is_stale(cid, now) || (self.closed.contains_key(
                        cid,
                    ) && span(now, self.closed[cid]) < CLOSED_TTL),
                |cid: u32|
                    if self.is_idle(cid, now) || self.is_stale(cid, now) {
                        now
                    } else {
                        self.closed[cid]
                    },
            ),
            handshaking: self.handshaking.restrict(
                Set::new(|cid: u32| span(now, self.handshaking[cid]) < HANDSHAKING_TTL),
            ),
            ..self
        }
    }

    /// What is done about a list of idle connections.
    pub open spec fn idle_actions(self, cids: Seq<u32>) -> Seq<ActionView>
        decreases cids.len(),
    {
        if cids.len() == 0 {
            Seq::empty()
        } else {
            self.idle_actions(cids.drop_last()).push(
                ActionView::Teardown { cid: cids.last() },
            ).push(ActionView::Send(FrameView::rst(cids.last())))
        }
    }

    /// What is done about a list of stale entries.
    pub open spec fn stale_actions(self, cids: Seq<u32>) -> Seq<ActionView>
        decreases cids.len(),
    {
        if cids.len() == 0 {
            Seq::empty()
        } else {
            (self.stale_actions(cids.drop_last()) + self.cancel(cids.last())).push(
                ActionView::Send(FrameView::rst(cids.last())),
            )
        }
    }

    /// A list holds every idle connection once and nothing else.
    pub open spec fn lists_idle(self, cids: Seq<u32>, now: u64) -> bool {
        cids.no_duplicates() && forall|cid: u32| cids.contains(cid) <==> #[trigger] self.is_idle(
            cid,
            now,
        )
    }

    /// A list holds every stale entry once and nothing else.
    pub open spec fn lists_stale(self, cids: Seq<u32>, now: u64) -> bool {
        cids.no_duplicates() && forall|cid: u32| cids.contains(cid) <==> #[trigger] self.is_stale(
            cid,
            now,
        )
    }

    /// Actions that a sweep may ask for: one set for each idle connection, then one
    /// for each stale entry, each in some order.
    pub open spec fn sweeps(self, actions: Seq<ActionView>, now: u64) -> bool {
        exists|idle: Seq<u32>, stale: Seq<u32>|
            self.lists_idle(idle, now) && self.lists_stale(stale, now) && actions
                == #[trigger] self.idle_actions(idle) + #[trigger] self.stale_actions(stale)
    }

    /// An entry may be evicted in favour of `keep`.
    pub open spec fn evictable(self, keep: u32, cid: u32) -> bool {
        self.pending.contains_key(cid) && cid != keep
    }

    /// An entry has waited longest of those that may be evicted; of two that have
    /// waited equally long, the one with the smaller id.
    pub open spec fn is_oldest(self, keep: u32, cid: u32) -> bool {
        &&& self.evictable(keep, cid)
        &&& forall|other: u32| #[trigger]
            self.evictable(keep, other) ==> self.pending[cid].since < self.pending[other].since || (
            self.pending[cid].since == self.pending[other].since && cid <= other)
    }

    /// The entry that has waited longest of those that may be evicted.
    pub open spec fn oldest(self, keep: u32) -> u32 {
        choose|cid: u32| self.is_oldest(keep, cid)
    }

    /// Makes room for `need` bytes: while the budget does not allow them, the entry
    /// that has waited longest is evicted. Says whether there is room in the end.
    pub open spec fn reserve(self, keep: u32, need: nat, now: u64) -> (
        ReassemblerView,
        Seq<ActionView>,
        bool,
    )
        decreases self.pending.dom().len(),
        when self.pending.dom().finite()
    {
        if self.used() + need <= MAX_PENDING_BYTES {
            (self, Seq::empty(), true)
        } else if exists|cid: u32| self.is_oldest(keep, cid) {
            let (next, first) = self.evict(self.oldest(keep), now);
            let (last, rest, room) = next.reserve(keep, need, now);
            (last, first + rest, room)
        } else {
            (self, Seq::empty(), false)
        }
    }
}

/// What a connection's value is in a view.
pub open spec fn conn_view() -> spec_fn(VirtConnDe) -> ConnView {
    |c: VirtConnDe| c@
}

/// What an entry's value is in a view.
pub open spec fn entry_view() -> spec_fn(PendingEntry) -> PendingView {
    |p: PendingEntry| p@
}

/// The state of a reassembler, and its rules.
///
/// Frames, outcomes of outside work and the time go in; actions come out.
pub struct Reassembler {
    conns: DashMap<u32, VirtConnDe>,
    pending: DashMap<u32, PendingEntry>,
    closed: DashMap<u32, u64>,
    handshaking: DashMap<u32, u64>,
    pending_bytes: usize,
    resets: u64,
    window: usize,
    next_token: u64,
}

impl View for Reassembler {
    type V = ReassemblerView;

    closed spec fn view(&self) -> ReassemblerView {
        ReassemblerView {
            conns: egresses(self.conns).map_values(conn_view()),
            pending: waiting(self.pending).map_values(entry_view()),
            closed: stamps(self.closed),
            handshaking: stamps(self.handshaking),
            resets: self.resets,
            window: self.window as nat,
            next_token: self.next_token,
        }
    }
}

impl Reassembler {
    /// The view's invariant holds, the byte count is the true one, and every
    /// connection's window is sound.
    pub closed spec fn wf(&self) -> bool {
        &&& self@.inv()
        &&& self.pending_bytes == self@.used()
        &&& forall|cid: u32| #[trigger] egresses(self.conns).contains_key(cid)
            ==> egresses(self.conns)[cid].reorder.wf()
    }

    /// A reassembler without connections, whose reorder windows hold `window` bytes.
    pub fn new(window: usize) -> (r: Self)
        ensures
            r.wf(),
            r@ == (ReassemblerView {
                conns: Map::empty(),
                pending: Map::empty(),
                closed: Map::empty(),
                handshaking: Map::empty(),
                resets: 0,
                window: window as nat,
                next_token: 0,
            }),
    {
        let r = Reassembler {
            conns: egresses_new(),
            pending: waiting_new(),
            closed: stamps_new(),
            handshaking: stamps_new(),
            pending_bytes: 0,
            resets: 0,
            window,
            next_token: 0,
        };
        proof {
            assert(r@.conns =~= Map::<u32, ConnView>::empty());
            assert(r@.pending =~= Map::<u32, PendingView>::empty());
            lemma_total_empty::<u32, PendingView>(pending_size());
        }
        r
    }

    /// Takes an entry out of the waiting frames and gives its bytes back to the
    /// budget.
    fn remove_pending(&mut self, cid: u32) -> (r: Option<PendingEntry>)
        requires
            old(self).wf(),
        ensures
            final(self).wf(),
            final(self)@ == (ReassemblerView {
                pending: old(self)@.pending.remove(cid),
                ..old(self)@
            }),
            r is Some <==> old(self)@.pending.contains_key(cid),
            r is Some ==> r->Some_0@ == old(self)@.pending[cid],
            r is Some ==> old(self)@.used() == final(self)@.used() + r->Some_0@.bytes,
            r is None ==> final(self)@ == old(self)@,
    {
        let ghost before = self@;
        let ghost held = waiting(self.pending);
        let r = waiting_remove(&mut self.pending, cid);
        proof {
            lemma_map_values_remove(held, cid, entry_view());
        }
        match &r {
            Some(entry) => {
                proof {
                    assert(before.pending.contains_key(cid));
                    lemma_total_remove(before.pending, cid, pending_size());
                }
                self.pending_bytes = self.pending_bytes - entry.bytes;
            },
            None => {
                proof {
                    assert(before.pending.remove(cid) =~= before.pending);
                }
            },
        }
        r
    }

    /// Gives up the attempt to connect that an entry stands for, if there is one.
    fn cancel_entry(cid: u32, entry: &PendingEntry, out: &mut Vec<Action>)
        ensures
            action_views(final(out)@) == action_views(old(out)@) + (if entry@.connecting {
                seq![ActionView::CancelHandshake { cid }]
            } else {
                Seq::empty()
            }),
    {
        if entry.connecting {
            emit(out, Action::CancelHandshake { cid });
            proof {
                assert(action_views(out@) =~= action_views(old(out)@) + seq![
                    ActionView::CancelHandshake { cid },
                ]);
            }
        } else {
            proof {
                assert(action_views(old(out)@) =~= action_views(old(out)@) + Seq::empty());
            }
        }
    }

    /// Fails the stream of a frame that had to be dropped before its connection was
    /// set up.
    fn fail_pending_conn(&mut self, cid: u32, now: u64, out: &mut Vec<Action>)
        requires
            old(self).wf(),
        ensures
            final(self).wf(),
            final(self)@ == old(self)@.fail_pending(cid, now).0,
            action_views(final(out)@) == action_views(old(out)@) + old(self)@.fail_pending(
                cid,
                now,
            ).1,
    {
        let ghost before = self@;
        match self.remove_pending(cid) {
            Some(mut entry) => {
                Self::cancel_entry(cid, &entry, out);
                entry.cancelled = true;
                self.put_pending(cid, entry);
                proof {
                    assert(self@.pending =~= before.pending.insert(
                        cid,
                        PendingView { cancelled: true, ..before.pending[cid] },
                    ));
                }
            },
            None => {
                proof {
                    assert(self@.pending =~= before.pending);
                }
            },
        }
        stamps_insert(&mut self.closed, cid, now);
        emit(out, Action::Send(Frame::rst(cid)));
        proof {
            assert(self@ =~= before.fail_pending(cid, now).0);
            assert(action_views(out@) =~= action_views(old(out)@) + before.fail_pending(
                cid,
                now,
            ).1);
        }
    }

    /// Puts an entry back among the waiting frames, where its id has none.
    fn put_pending(&mut self, cid: u32, entry: PendingEntry)
        requires
            old(self).wf(),
            !old(self)@.pending.contains_key(cid),
            old(self)@.used() + entry@.bytes <= MAX_PENDING_BYTES,
            entry@.frames.len() <= MAX_PENDING_FRAMES_PER_CID,
            entry@.bytes == data_bytes(entry@.frames),
        ensures
            final(self).wf(),
            final(self)@ == (ReassemblerView {
                pending: old(self)@.pending.insert(cid, entry@),
                ..old(self)@
            }),
    {
        proof {
            lemma_map_values_insert(waiting(self.pending), cid, entry, entry_view());
            lemma_total_insert(self@.pending, cid, entry@, pending_size());
        }
        self.pending_bytes = self.pending_bytes + entry.bytes;
        waiting_insert(&mut self.pending, cid, entry);
    }

    /// Finds the entry that has waited longest of those that may be evicted.
    fn oldest_pending(&self, keep: u32) -> (r: Option<u32>)
        ensures
            r is Some ==> self@.is_oldest(keep, r->Some_0),
            r is None ==> forall|cid: u32| !self@.evictable(keep, cid),
    {
        let keys = waiting_keys(&self.pending);
        let mut best: Option<(u64, u32)> = None;
        let mut i: usize = 0;
        while i < keys.len()
            invariant
                i <= keys@.len(),
                lists_keys(keys@, waiting(self.pending)),
                best is None ==> forall|j: int|
                    0 <= j < i ==> !self@.evictable(keep, #[trigger] keys@[j]),
                best is Some ==> {
                    let (since, cid) = best->Some_0;
                    &&& self@.evictable(keep, cid)
                    &&& since == self@.pending[cid].since
                    &&& forall|j: int|
                        0 <= j < i && self@.evictable(keep, #[trigger] keys@[j]) ==> since
                            < self@.pending[keys@[j]].since || (since
                            == self@.pending[keys@[j]].since && cid <= keys@[j])
                },
            decreases keys.len() - i,
        {
            let cid: u32 = keys[i];
            if cid != keep {
                assert(keys@.contains(cid));
                match waiting_state(&self.pending, cid) {
                    Some((since, _)) => {
                        let better: bool = match best {
                            None => true,
                            Some((s, c)) => since < s || (since == s && cid < c),
                        };
                        if better {
                            best = Some((since, cid));
                        }
                    },
                    None => {},
                }
            }
            i = i + 1;
        }
        proof {
            assert forall|cid: u32| #[trigger] self@.evictable(keep, cid) implies exists|j: int|
                0 <= j < keys@.len() && keys@[j] == cid by {
                assert(waiting(self.pending).contains_key(cid));
                assert(keys@.contains(cid));
            }
        }
        match best {
            Some((_, cid)) => Some(cid),
            None => None,
        }
    }

    /// Makes room for `need` bytes of waiting frames, evicting other entries, oldest
    /// first, while the budget is exceeded.
    fn try_reserve_pending(
        &mut self,
        keep: u32,
        need: usize,
        now: u64,
        out: &mut Vec<Action>,
    ) -> (r: bool)
        requires
            old(self).wf(),
        ensures
            final(self).wf(),
            final(self)@ == old(self)@.reserve(keep, need as nat, now).0,
            action_views(final(out)@) == action_views(old(out)@) + old(self)@.reserve(
                keep,
                need as nat,
                now,
            ).1,
            r == old(self)@.reserve(keep, need as nat, now).2,
    {
        let ghost start = self@;
        let ghost mut done: Seq<ActionView> = Seq::empty();
        proof {
            assert(action_views(out@) =~= action_views(old(out)@) + done);
            let all = start.reserve(keep, need as nat, now);
            assert(done + all.1 =~= all.1);
        }
        loop
            invariant
                self.wf(),
                start == old(self)@,
                action_views(out@) == action_views(old(out)@) + done,
                start.reserve(keep, need as nat, now) == ({
                    let (last, rest, room) = self@.reserve(keep, need as nat, now);
                    (last, done + rest, room)
                }),
            decreases self@.pending.dom().len(),
        {
            if need <= MAX_PENDING_BYTES - self.pending_bytes {
                proof {
                    assert(done + Seq::<ActionView>::empty() =~= done);
                }
                return true;
            }
            let ghost before = self@;
            match self.oldest_pending(keep) {
                None => {
                    proof {
                        assert(forall|cid: u32| self@.is_oldest(keep, cid) ==> self@.evictable(keep, cid));
                        assert(done + Seq::<ActionView>::empty() =~= done);
                    }
                    return false;
                },
                Some(cid) => {
                    proof {
                        lemma_oldest_unique(before, keep, cid, before.oldest(keep));
                    }
                    match self.remove_pending(cid) {
                        Some(entry) => {
                            Self::cancel_entry(cid, &entry, out);
                        },
                        None => {},
                    }
                    stamps_insert(&mut self.closed, cid, now);
                    emit(out, Action::Send(Frame::rst(cid)));
                    proof {
                        let (next, first) = before.evict(cid, now);
                        assert(self@ =~= next);
                        let (last, rest, room) = next.reserve(keep, need as nat, now);
                        assert(action_views(out@) =~= action_views(old(out)@) + (done + first));
                        assert(done + (first + rest) =~= (done + first) + rest);
                        done = done + first;
                    }
                },
            }
        }
    }

    /// Takes a connection out of the table.
    fn take_conn(&mut self, cid: u32) -> (r: Option<VirtConnDe>)
        requires
            old(self).wf(),
        ensures
            final(self).wf(),
            final(self)@ == (ReassemblerView {
                conns: old(self)@.conns.remove(cid),
                ..old(self)@
            }),
            r is Some <==> old(self)@.conns.contains_key(cid),
            r is Some ==> r->Some_0@ == old(self)@.conns[cid] && r->Some_0.reorder.wf(),
    {
        let ghost held = egresses(self.conns);
        proof {
            lemma_map_values_remove(held, cid, conn_view());
            assert(held.contains_key(cid) <==> self@.conns.contains_key(cid));
        }
        egresses_remove(&mut self.conns, cid)
    }

    /// Sets a connection in the table.
    fn put_conn(&mut self, cid: u32, conn: VirtConnDe)
        requires
            old(self).wf(),
            conn.reorder.wf(),
        ensures
            final(self).wf(),
            final(self)@ == old(self)@.with_conn(cid, conn@),
    {
        proof {
            lemma_map_values_insert(egresses(self.conns), cid, conn, conn_view());
            conn.reorder.lemma_wf_inv();
        }
        egresses_insert(&mut self.conns, cid, conn);
    }

    /// Keeps a frame until its connection is there, or fails its stream.
    fn park(&mut self, frame: Frame, need: usize, now: u64, out: &mut Vec<Action>)
        requires
            old(self).wf(),
            need == (if flagged(frame.flags, FLAG_DATA) {
                frame@.payload.len()
            } else {
                0
            }),
        ensures
            final(self).wf(),
            final(self)@ == old(self)@.park(frame@, need as nat, now).0,
            action_views(final(out)@) == action_views(old(out)@) + old(self)@.park(
                frame@,
                need as nat,
                now,
            ).1,
    {
        let cid: u32 = frame.conn_id;
        let ghost before = self@;
        if !waiting_contains(&self.pending, cid) && waiting_len(&self.pending) >= MAX_PENDING_CIDS {
            proof {
                assert(before.pending.dom() =~= waiting(self.pending).dom());
            }
            self.fail_pending_conn(cid, now, out);
            return ;
        }
        proof {
            assert(before.pending.dom() =~= waiting(self.pending).dom());
        }
        let room: bool = self.try_reserve_pending(cid, need, now, out);
        let ghost next = self@;
        assert(next.inv());
        let ghost evicted = before.reserve(cid, need as nat, now).1;
        if !room {
            self.fail_pending_conn(cid, now, out);
            proof {
                let failed = next.fail_pending(cid, now).1;
                assert(action_views(out@) =~= action_views(old(out)@) + (evicted + failed));
            }
            return ;
        }
        proof {
            lemma_reserve_room(before, cid, need as nat, now);
        }
        let mut entry = match self.remove_pending(cid) {
            Some(entry) => entry,
            None => PendingEntry::new(now),
        };
        let ghost waited = entry@;
        assert(waited == next.entry(cid, now));
        assert(waited.bytes == data_bytes(waited.frames));
        if entry.frames.len() < MAX_PENDING_FRAMES_PER_CID {
            entry.frames.push(frame);
            entry.bytes = entry.bytes + need;
            proof {
                assert(entry@.frames =~= waited.frames.push(frame@));
                assert(waited.frames.push(frame@).drop_last() =~= waited.frames);
            }
            self.put_pending(cid, entry);
            proof {
                assert(self@.pending =~= next.pending.insert(cid, entry@));
                assert(self@ =~= before.park(frame@, need as nat, now).0);
            }
        } else {
            self.put_pending(cid, entry);
            proof {
                assert(next.pending.contains_key(cid));
                assert(self@.pending =~= next.pending);
                assert(self@ =~= next);
            }
            self.fail_pending_conn(cid, now, out);
            proof {
                let failed = next.fail_pending(cid, now).1;
                assert(action_views(out@) =~= action_views(old(out)@) + (evicted + failed));
            }
        }
    }

    /// Gives a connection up that is in the table no longer.
    fn reset_taken(&mut self, cid: u32, now: u64, out: &mut Vec<Action>)
        requires
            old(self).wf(),
            !old(self)@.conns.contains_key(cid),
        ensures
            final(self).wf(),
            final(self)@ == old(self)@.reset(cid, now).0,
            action_views(final(out)@) == action_views(old(out)@) + old(self)@.reset(cid, now).1,
    {
        let ghost before = self@;
        stamps_insert(&mut self.closed, cid, now);
        self.resets = self.resets.wrapping_add(1);
        emit(out, Action::Teardown { cid });
        emit(out, Action::Send(Frame::rst(cid)));
        proof {
            assert(before.conns.remove(cid) =~= before.conns);
            assert(self@ =~= before.reset(cid, now).0);
            assert(action_views(out@) =~= action_views(old(out)@) + before.reset(cid, now).1);
        }
    }

    /// Puts a connection back into the table, unless it has ended in both directions.
    fn finish_if_done(&mut self, cid: u32, conn: VirtConnDe, now: u64, out: &mut Vec<Action>)
        requires
            old(self).wf(),
            !old(self)@.conns.contains_key(cid),
            conn.reorder.wf(),
        ensures
            final(self).wf(),
            final(self)@ == old(self)@.with_conn(cid, conn@).finish(cid, now).0,
            action_views(final(out)@) == action_views(old(out)@) + old(self)@.with_conn(
                cid,
                conn@,
            ).finish(cid, now).1,
    {
        let ghost before = self@;
        if conn.is_done() {
            stamps_insert(&mut self.closed, cid, now);
            emit(out, Action::Release { cid });
            proof {
                assert(before.with_conn(cid, conn@).conns.remove(cid) =~= before.conns);
                assert(self@ =~= before.with_conn(cid, conn@).finish(cid, now).0);
                assert(action_views(out@) =~= action_views(old(out)@) + seq![
                    ActionView::Release { cid },
                ]);
            }
        } else {
            self.put_conn(cid, conn);
            proof {
                assert(action_views(out@) =~= action_views(out@) + Seq::empty());
            }
        }
    }

    /// Ends the other end's direction of a connection that was taken out of the
    /// table, and puts it back unless it is done.
    fn start_half_close(
        &mut self,
        cid: u32,
        conn: VirtConnDe,
        fin_seq: u64,
        now: u64,
        out: &mut Vec<Action>,
    )
        requires
            old(self).wf(),
            !old(self)@.conns.contains_key(cid),
            conn.reorder.wf(),
        ensures
            final(self).wf(),
            final(self)@ == old(self)@.with_conn(cid, conn@).fin(cid, fin_seq, now).0,
            action_views(final(out)@) == action_views(old(out)@) + old(self)@.with_conn(
                cid,
                conn@,
            ).fin(cid, fin_seq, now).1,
    {
        let ghost before = self@;
        let ghost had = before.with_conn(cid, conn@);
        let mut conn = conn;
        if !conn.fin_received {
            let ghost start = conn@;
            conn.fin_received = true;
            conn.fin_seq = fin_seq;
            emit(out, Action::ArmForceClose { cid, token: conn.token });
            let shut: bool = conn.close_write_half(false);
            if shut {
                emit(out, Action::CloseWrite { cid });
            }
            proof {
                assert(had.with_conn(cid, conn@) =~= before.with_conn(cid, conn@));
                assert(action_views(out@) =~= action_views(old(out)@) + (seq![
                    ActionView::ArmForceClose { cid, token: start.token },
                ] + close_action(cid, shut)));
            }
            self.finish_if_done(cid, conn, now, out);
            proof {
                assert(action_views(out@) =~= action_views(old(out)@) + had.fin(
                    cid,
                    fin_seq,
                    now,
                ).1);
            }
        } else {
            self.finish_if_done(cid, conn, now, out);
        }
    }

    /// Withdraws an attempt to set a connection up.
    fn withdraw(&mut self, cid: u32, now: u64)
        requires
            old(self).wf(),
        ensures
            final(self).wf(),
            final(self)@ == old(self)@.withdraw(cid, now),
    {
        let ghost before = self@;
        let _ = self.remove_pending(cid);
        stamps_remove(&mut self.handshaking, cid);
        stamps_insert(&mut self.closed, cid, now);
        proof {
            assert(self@ =~= before.withdraw(cid, now));
        }
    }

    /// Takes a SYN in.
    fn handle_syn(&mut self, frame: Frame, now: u64, out: &mut Vec<Action>)
        requires
            old(self).wf(),
        ensures
            final(self).wf(),
            final(self)@ == old(self)@.on_syn(frame@, now).0,
            action_views(final(out)@) == action_views(old(out)@) + old(self)@.on_syn(
                frame@,
                now,
            ).1,
    {
        let cid: u32 = frame.conn_id;
        let ghost before = self@;
        assert(action_views(out@) =~= action_views(out@) + Seq::empty());
        if egresses_contains(&self.conns, cid) {
            return ;
        }
        if stamps_contains(&self.handshaking, cid) {
            stamps_insert(&mut self.handshaking, cid, now);
            return ;
        }
        if stamps_contains(&self.closed, cid) {
            let _ = self.remove_pending(cid);
            return ;
        }
        let wanted: Option<SynTarget> = match SynTarget::decode(bytes_as_slice(&frame.payload)) {
            Ok(t) => if t.proto == PROTO_TCP || t.proto == PROTO_UDP {
                Some(t)
            } else {
                None
            },
            Err(_) => None,
        };
        match wanted {
            None => {
                self.withdraw(cid, now);
                emit(out, Action::Send(Frame::rst(cid)));
                proof {
                    assert(action_views(out@) =~= action_views(old(out)@) + seq![
                        ActionView::Send(FrameView::rst(cid)),
                    ]);
                }
            },
            Some(target) => {
                let mut entry = match self.remove_pending(cid) {
                    Some(entry) => entry,
                    None => PendingEntry::new(now),
                };
                assert(entry@ == before.entry(cid, now));
                entry.connecting = true;
                self.put_pending(cid, entry);
                stamps_insert(&mut self.handshaking, cid, now);
                proof {
                    assert(self@ =~= before.on_syn(frame@, now).0);
                }
                if target.proto == PROTO_UDP {
                    emit(out, Action::BindUdp { cid });
                } else {
                    emit(out, Action::Connect { cid, target });
                }
                proof {
                    assert(action_views(out@) =~= action_views(old(out)@) + before.on_syn(
                        frame@,
                        now,
                    ).1);
                }
            },
        }
    }

    /// Takes data in.
    fn handle_data(&mut self, frame: Frame, now: u64, out: &mut Vec<Action>)
        requires
            old(self).wf(),
            flagged(frame.flags, FLAG_DATA),
        ensures
            final(self).wf(),
            final(self)@ == old(self)@.on_data(frame@, now).0,
            action_views(final(out)@) == action_views(old(out)@) + old(self)@.on_data(
                frame@,
                now,
            ).1,
    {
        let cid: u32 = frame.conn_id;
        let len: usize = frame.payload.len();
        let ghost before = self@;
        assert(action_views(out@) =~= action_views(out@) + Seq::empty());
        match self.take_conn(cid) {
            Some(mut conn) => {
                let ghost c = conn@;
                if conn.is_udp {
                    conn.count_received(len as u64, now);
                    self.put_conn(cid, conn);
                    emit(out, Action::Forward { cid, datagram: frame.payload });
                    proof {
                        assert(self@ =~= before.with_conn(cid, c.received(len as nat, now)));
                        assert(action_views(out@) =~= action_views(old(out)@) + before.on_data(
                            frame@,
                            now,
                        ).1);
                    }
                    return ;
                }
                let token: u64 = conn.token;
                let r = conn.reorder.push(frame.seq, frame.payload);
                if r.accepted {
                    self.put_conn(cid, conn);
                    emit(
                        out,
                        Action::Deliver { cid, token, chunks: r.ready, count: Some(len as u64) },
                    );
                    proof {
                        assert(self@ =~= before.on_data(frame@, now).0);
                        assert(action_views(out@) =~= action_views(old(out)@) + before.on_data(
                            frame@,
                            now,
                        ).1);
                    }
                } else if r.overflow {
                    self.reset_taken(cid, now, out);
                    proof {
                        assert(self@ =~= before.reset(cid, now).0);
                    }
                } else {
                    self.put_conn(cid, conn);
                    proof {
                        assert(self@ =~= before);
                    }
                }
            },
            None => {
                proof {
                    assert(before.conns.remove(cid) =~= before.conns);
                    assert(self@ =~= before);
                }
                if stamps_contains(&self.closed, cid) {
                    emit(out, Action::Send(Frame::rst(cid)));
                    proof {
                        assert(action_views(out@) =~= action_views(old(out)@) + seq![
                            ActionView::Send(FrameView::rst(cid)),
                        ]);
                    }
                } else {
                    self.park(frame, len, now, out);
                }
            },
        }
    }

    /// Takes a FIN in.
    fn handle_fin(&mut self, frame: Frame, now: u64, out: &mut Vec<Action>)
        requires
            old(self).wf(),
            !flagged(frame.flags, FLAG_DATA),
        ensures
            final(self).wf(),
            final(self)@ == old(self)@.on_fin(frame@, now).0,
            action_views(final(out)@) == action_views(old(out)@) + old(self)@.on_fin(
                frame@,
                now,
            ).1,
    {
        let cid: u32 = frame.conn_id;
        let ghost before = self@;
        assert(action_views(out@) =~= action_views(out@) + Seq::empty());
        match self.take_conn(cid) {
            Some(conn) => {
                if conn.is_udp {
                    self.put_conn(cid, conn);
                    proof {
                        assert(self@ =~= before);
                    }
                } else {
                    proof {
                        assert(self@.with_conn(cid, conn@) =~= before);
                    }
                    self.start_half_close(cid, conn, frame.seq, now, out);
                }
            },
            None => {
                proof {
                    assert(before.conns.remove(cid) =~= before.conns);
                    assert(self@ =~= before);
                }
                if !stamps_contains(&self.closed, cid) {
                    self.park(frame, 0, now, out);
                }
            },
        }
    }

    /// Takes an RST in.
    fn handle_rst(&mut self, cid: u32, now: u64, out: &mut Vec<Action>)
        requires
            old(self).wf(),
        ensures
            final(self).wf(),
            forall|f: FrameView|
                #![trigger old(self)@.on_rst(f, now)]
                f.conn_id == cid ==> final(self)@ == old(self)@.on_rst(f, now).0 && action_views(
                    final(out)@,
                ) == action_views(old(out)@) + old(self)@.on_rst(f, now).1,
    {
        let ghost before = self@;
        match self.take_conn(cid) {
            Some(_) => {
                stamps_insert(&mut self.closed, cid, now);
                self.resets = self.resets.wrapping_add(1);
                emit(out, Action::Teardown { cid });
                proof {
                    assert(self@ =~= before.reset(cid, now).0);
                    assert(action_views(out@) =~= action_views(old(out)@) + seq![
                        ActionView::Teardown { cid },
                    ]);
                }
            },
            None => {
                proof {
                    assert(before.conns.remove(cid) =~= before.conns);
                    assert(self@ =~= before);
                    assert(action_views(out@) =~= action_views(out@) + Seq::empty());
                }
                match self.remove_pending(cid) {
                    Some(mut entry) => {
                        Self::cancel_entry(cid, &entry, out);
                        entry.cancelled = true;
                        self.put_pending(cid, entry);
                    },
                    None => {},
                }
                stamps_insert(&mut self.closed, cid, now);
                proof {
                    assert(self@ =~= before.fail_pending(cid, now).0);
                }
            },
        }
    }

    /// Takes a frame in and says what to do about it.
    pub fn handle_frame(&mut self, frame: Frame, now: u64) -> (r: Vec<Action>)
        requires
            old(self).wf(),
        ensures
            final(self).wf(),
            (final(self)@, action_views(r@)) == old(self)@.on_frame(frame@, now),
    {
        let mut out: Vec<Action> = Vec::new();
        assert(action_views(out@) =~= Seq::empty());
        if frame.flags & FLAG_SYN != 0 {
            self.handle_syn(frame, now, &mut out);
        } else if frame.flags & FLAG_DATA != 0 {
            self.handle_data(frame, now, &mut out);
        } else if frame.flags & FLAG_FIN != 0 {
            self.handle_fin(frame, now, &mut out);
        } else if frame.flags & FLAG_RST != 0 {
            self.handle_rst(frame.conn_id, now, &mut out);
        }
        proof {
            let want = old(self)@.on_frame(frame@, now);
            assert(Seq::<ActionView>::empty() + want.1 =~= want.1);
        }
        out
    }

    /// Reports that the chunks of a `Deliver` were queued (`ok`) or refused.
    pub fn delivered(&mut self, cid: u32, token: u64, count: Option<u64>, ok: bool, now: u64) -> (r:
        Vec<Action>)
        requires
            old(self).wf(),
        ensures
            final(self).wf(),
            (final(self)@, action_views(r@)) == old(self)@.on_delivered(cid, token, count, ok, now),
    {
        let ghost before = self@;
        let mut out: Vec<Action> = Vec::new();
        assert(action_views(out@) =~= Seq::empty());
        match self.take_conn(cid) {
            Some(mut conn) => {
                if conn.token != token {
                    self.put_conn(cid, conn);
                    assert(self@ =~= before);
                    return out;
                }
                if !ok {
                    self.reset_taken(cid, now, &mut out);
                    proof {
                        assert(self@ =~= before.reset(cid, now).0);
                        assert(action_views(out@) =~= before.reset(cid, now).1);
                    }
                    return out;
                }
                match count {
                    None => {
                        self.put_conn(cid, conn);
                        assert(self@ =~= before);
                    },
                    Some(len) => {
                        conn.count_received(len, now);
                        if conn.fin_received {
                            let shut: bool = conn.close_write_half(false);
                            if shut {
                                emit(&mut out, Action::CloseWrite { cid });
                            }
                            proof {
                                assert(action_views(out@) =~= close_action(cid, shut));
                                assert(self@.with_conn(cid, conn@) =~= before.with_conn(
                                    cid,
                                    conn@,
                                ));
                            }
                            self.finish_if_done(cid, conn, now, &mut out);
                        } else {
                            let ghost c = conn@;
                            self.put_conn(cid, conn);
                            assert(self@ =~= before.with_conn(cid, c));
                        }
                    },
                }
            },
            None => {
                proof {
                    assert(self@ =~= before) by {
                        assert(before.conns.remove(cid) =~= before.conns);
                    }
                }
            },
        }
        out
    }

    /// Reports that a connection has been set up.
    pub fn connected(&mut self, cid: u32, is_udp: bool, now: u64) -> (r: (Option<u64>, Vec<Action>))
        requires
            old(self).wf(),
        ensures
            final(self).wf(),
            (final(self)@, r.0, action_views(r.1@)) == old(self)@.on_connected(cid, is_udp, now),
    {
        let ghost before = self@;
        let mut out: Vec<Action> = Vec::new();
        assert(action_views(out@) =~= Seq::empty());
        let entry = match self.remove_pending(cid) {
            Some(entry) => entry,
            None => PendingEntry::new(now),
        };
        assert(entry@ == before.entry(cid, now));
        stamps_remove(&mut self.handshaking, cid);
        if stamps_contains(&self.closed, cid) || entry.cancelled {
            stamps_insert(&mut self.closed, cid, now);
            assert(self@ =~= before.withdraw(cid, now));
            return (None, out);
        }
        let token: u64 = self.next_token;
        self.next_token = token.wrapping_add(1);
        let mut conn = VirtConnDe::new(token, self.window, is_udp, now);
        let ghost c = conn@;
        let ghost next = ReassemblerView {
            pending: before.pending.remove(cid),
            handshaking: before.handshaking.remove(cid),
            next_token: token.wrapping_add(1),
            ..before
        };
        assert(self@ =~= next);
        if is_udp {
            self.put_conn(cid, conn);
            forward_all(cid, &entry.frames, &mut out);
            return (Some(token), out);
        }
        let (ready, fin, broken) = replay_frames(&mut conn, &entry.frames);
        // The table may still hold an older connection under this id.
        let _ = self.take_conn(cid);
        if broken {
            self.reset_taken(cid, now, &mut out);
            proof {
                assert(self@ =~= next.reset(cid, now).0);
                assert(action_views(out@) =~= next.reset(cid, now).1);
            }
            return (None, out);
        }
        emit(&mut out, Action::Deliver { cid, token, chunks: ready, count: None });
        let ghost d = conn@;
        let ghost deliver = ActionView::Deliver { cid, token, chunks: contents(ready@), count: None };
        assert(action_views(out@) =~= seq![deliver]);
        match fin {
            Some(fin_seq) => {
                assert(self@.with_conn(cid, d) =~= next.with_conn(cid, d));
                self.start_half_close(cid, conn, fin_seq, now, &mut out);
            },
            None => {
                self.put_conn(cid, conn);
                assert(self@ =~= next.with_conn(cid, d));
            },
        }
        (Some(token), out)
    }

    /// Reports that a connection could not be set up.
    pub fn egress_failed(&mut self, cid: u32, now: u64) -> (r: Vec<Action>)
        requires
            old(self).wf(),
        ensures
            final(self).wf(),
            (final(self)@, action_views(r@)) == old(self)@.abandon(cid, now),
    {
        let mut out: Vec<Action> = Vec::new();
        self.withdraw(cid, now);
        emit(&mut out, Action::Send(Frame::rst(cid)));
        assert(action_views(out@) =~= seq![ActionView::Send(FrameView::rst(cid))]);
        out
    }

    /// Reports that an attempt to set a connection up was given up on demand.
    pub fn handshake_cancelled(&mut self, cid: u32, now: u64)
        requires
            old(self).wf(),
        ensures
            final(self).wf(),
            final(self)@ == old(self)@.withdraw(cid, now),
    {
        self.withdraw(cid, now);
    }

    /// Reports that the fallback time after a FIN is over.
    pub fn half_close_timeout(&mut self, cid: u32, token: u64) -> (r: Vec<Action>)
        requires
            old(self).wf(),
        ensures
            final(self).wf(),
            (final(self)@, action_views(r@)) == old(self)@.on_half_close_timeout(cid, token),
    {
        let ghost before = self@;
        let mut out: Vec<Action> = Vec::new();
        assert(action_views(out@) =~= Seq::empty());
        match self.take_conn(cid) {
            Some(mut conn) => {
                if conn.token == token {
                    let shut: bool = conn.close_write_half(true);
                    if shut {
                        emit(&mut out, Action::CloseWrite { cid });
                    }
                    assert(action_views(out@) =~= close_action(cid, shut));
                }
                let ghost c = conn@;
                self.put_conn(cid, conn);
                assert(self@ =~= before.with_conn(cid, c));
                assert(c == before.conns[cid] ==> before.with_conn(cid, c) =~= before);
            },
            None => {
                assert(before.conns.remove(cid) =~= before.conns);
                assert(self@ =~= before);
            },
        }
        out
    }

    /// Reports that a response with `len` payload bytes went to the other end.
    pub fn response_sent(&mut self, cid: u32, token: u64, len: u64, now: u64)
        requires
            old(self).wf(),
        ensures
            final(self).wf(),
            final(self)@ == old(self)@.on_response_sent(cid, token, len as nat, now),
    {
        let ghost before = self@;
        match self.take_conn(cid) {
            Some(mut conn) => {
                if conn.token == token {
                    conn.count_sent(len, now);
                }
                let ghost c = conn@;
                self.put_conn(cid, conn);
                assert(self@ =~= before.with_conn(cid, c));
                assert(c == before.conns[cid] ==> before.with_conn(cid, c) =~= before);
            },
            None => {
                assert(before.conns.remove(cid) =~= before.conns);
                assert(self@ =~= before);
            },
        }
    }

    /// Reports that a response could not be sent to the other end.
    pub fn response_failed(&mut self, cid: u32, token: u64, now: u64) -> (r: Vec<Action>)
        requires
            old(self).wf(),
        ensures
            final(self).wf(),
            (final(self)@, action_views(r@)) == old(self)@.on_response_failed(cid, token, now),
    {
        let ghost before = self@;
        let mut out: Vec<Action> = Vec::new();
        assert(action_views(out@) =~= Seq::empty());
        match self.take_conn(cid) {
            Some(conn) => {
                if conn.token == token {
                    self.reset_taken(cid, now, &mut out);
                    assert(self@ =~= before.reset(cid, now).0);
                    assert(action_views(out@) =~= before.reset(cid, now).1);
                } else {
                    self.put_conn(cid, conn);
                    assert(self@ =~= before);
                }
            },
            None => {
                assert(before.conns.remove(cid) =~= before.conns);
                assert(self@ =~= before);
            },
        }
        out
    }

    /// Reports that the target has sent all it will send.
    pub fn egress_ended(&mut self, cid: u32, token: u64, fin_sent: bool, now: u64) -> (r: Vec<
        Action,
    >)
        requires
            old(self).wf(),
        ensures
            final(self).wf(),
            (final(self)@, action_views(r@)) == old(self)@.on_egress_ended(
                cid,
                token,
                fin_sent,
                now,
            ),
    {
        let ghost before = self@;
        let mut out: Vec<Action> = Vec::new();
        if !fin_sent {
            emit(&mut out, Action::Send(Frame::rst(cid)));
        }
        let ghost told = if fin_sent {
            Seq::empty()
        } else {
            seq![ActionView::Send(FrameView::rst(cid))]
        };
        assert(action_views(out@) =~= told);
        match self.take_conn(cid) {
            Some(mut conn) => {
                if conn.token == token {
                    conn.egress_eof = true;
                    assert(self@.with_conn(cid, conn@) =~= before.with_conn(cid, conn@));
                    self.finish_if_done(cid, conn, now, &mut out);
                } else {
                    self.put_conn(cid, conn);
                    assert(self@ =~= before);
                }
            },
            None => {
                assert(before.conns.remove(cid) =~= before.conns);
                assert(self@ =~= before);
            },
        }
        out
    }

    /// Removes what is out of date and says what to do about it.
    pub fn sweep(&mut self, now: u64) -> (r: Vec<Action>)
        requires
            old(self).wf(),
        ensures
            final(self).wf(),
            final(self)@ == old(self)@.swept(now),
            old(self)@.sweeps(action_views(r@), now),
    {
        let ghost before = self@;
        let mut out: Vec<Action> = Vec::new();
        assert(action_views(out@) =~= Seq::empty());
        let Ghost(idle) = self.sweep_idle(now, &mut out);
        let ghost mid = self@;
        assert(action_views(out@) =~= before.idle_actions(idle));
        sweep_stamps(&mut self.closed, now, CLOSED_TTL);
        sweep_stamps(&mut self.handshaking, now, HANDSHAKING_TTL);
        let ghost late = self@;
        let Ghost(stale) = self.sweep_stale_pending(now, &mut out);
        proof {
            assert forall|cid: u32| late.is_stale(cid, now) == #[trigger] before.is_stale(
                cid,
                now,
            ) by {}
            lemma_stale_actions_agree(late, before, stale);
            assert(before.lists_stale(stale, now)) by {
                assert forall|cid: u32| stale.contains(cid) <==> #[trigger] before.is_stale(
                    cid,
                    now,
                ) by {
                    assert(late.is_stale(cid, now) == before.is_stale(cid, now));
                }
            }
            let want = before.swept(now);
            assert(self@.conns =~= want.conns);
            assert(self@.pending =~= want.pending);
            assert(self@.handshaking =~= want.handshaking);
            assert forall|cid: u32| #[trigger] self@.closed.contains_key(cid)
                <==> want.closed.contains_key(cid) by {
                assert(mid.closed.contains_key(cid) <==> before.closed.contains_key(cid)
                    || before.is_idle(cid, now));
                assert(late.closed.contains_key(cid) <==> mid.closed.contains_key(cid) && span(
                    now,
                    mid.closed[cid],
                ) < CLOSED_TTL);
            }
            assert forall|cid: u32| #[trigger] self@.closed.contains_key(
                cid,
            ) implies self@.closed[cid] == want.closed[cid] by {
                assert(late.closed.contains_key(cid) ==> mid.closed.contains_key(cid)
                    && late.closed[cid] == mid.closed[cid]);
            }
            assert(self@.closed =~= want.closed);
            assert(self@ =~= want);
            assert(action_views(out@) == before.idle_actions(idle) + before.stale_actions(stale));
        }
        out
    }

    /// Removes idle connections. Returns which, in the order of the actions.
    fn sweep_idle(&mut self, now: u64, out: &mut Vec<Action>) -> (r: Ghost<Seq<u32>>)
        requires
            old(self).wf(),
        ensures
            final(self).wf(),
            old(self)@.lists_idle(r@, now),
            action_views(final(out)@) == action_views(old(out)@) + old(self)@.idle_actions(r@),
            final(self)@ == (ReassemblerView {
                conns: old(self)@.conns.restrict(
                    Set::new(|cid: u32| !old(self)@.is_idle(cid, now)),
                ),
                closed: final(self)@.closed,
                ..old(self)@
            }),
            forall|cid: u32| #[trigger]
                final(self)@.closed.contains_key(cid) <==> old(self)@.closed.contains_key(cid)
                    || old(self)@.is_idle(cid, now),
            forall|cid: u32| #[trigger]
                final(self)@.closed.contains_key(cid) ==> final(self)@.closed[cid] == (if old(
                    self,
                )@.is_idle(cid, now) {
                    now
                } else {
                    old(self)@.closed[cid]
                }),
    {
        let ghost start = self@;
        let ghost mut done: Seq<u32> = Seq::empty();
        let keys = egresses_keys(&self.conns);
        let mut i: usize = 0;
        assert(action_views(out@) =~= action_views(out@) + start.idle_actions(done));
        while i < keys.len()
            invariant
                i <= keys@.len(),
                self.wf(),
                start == old(self)@,
                keys@.no_duplicates(),
                forall|k: u32| keys@.contains(k) <==> #[trigger] start.conns.contains_key(k),
                done.no_duplicates(),
                forall|k: u32| #[trigger]
                    done.contains(k) <==> start.is_idle(k, now) && keys@.take(i as int).contains(k),
                action_views(out@) == action_views(old(out)@) + start.idle_actions(done),
                self@ == (ReassemblerView {
                    conns: self@.conns,
                    closed: self@.closed,
                    ..start
                }),
                forall|k: u32| #[trigger]
                    self@.conns.contains_key(k) <==> start.conns.contains_key(k) && !done.contains(
                        k,
                    ),
                forall|k: u32| #[trigger]
                    self@.conns.contains_key(k) ==> self@.conns[k] == start.conns[k],
                forall|k: u32| #[trigger]
                    self@.closed.contains_key(k) <==> start.closed.contains_key(k)
                        || done.contains(k),
                forall|k: u32| #[trigger]
                    self@.closed.contains_key(k) ==> self@.closed[k] == (if done.contains(k) {
                        now
                    } else {
                        start.closed[k]
                    }),
            decreases keys.len() - i,
        {
            let cid: u32 = keys[i];
            let ghost prefix = keys@.take(i as int);
            let ghost before = self@;
            proof {
                assert(keys@.take(i + 1) =~= prefix.push(cid));
                assert(keys@.contains(cid));
                assert(!prefix.contains(cid)) by {
                    if prefix.contains(cid) {
                        let j = prefix.index_of(cid);
                        assert(keys@[j] == keys@[i as int]);
                    }
                }
                assert(!done.contains(cid));
                assert(forall|k: u32| #[trigger]
                    prefix.push(cid).contains(k) <==> prefix.contains(k) || k == cid) by {
                    lemma_push_contains(prefix, cid);
                }
            }
            match self.take_conn(cid) {
                Some(conn) => {
                    let limit: u64 = if conn.is_udp {
                        UDP_IDLE_TIMEOUT
                    } else {
                        TCP_IDLE_TIMEOUT
                    };
                    if elapsed_secs(now, conn.last_active) > limit {
                        stamps_insert(&mut self.closed, cid, now);
                        emit(out, Action::Teardown { cid });
                        emit(out, Action::Send(Frame::rst(cid)));
                        proof {
                            let was = done;
                            done = done.push(cid);
                            lemma_push_contains(was, cid);
                            assert(done.drop_last() =~= was);
                            assert(start.is_idle(cid, now));
                            assert(action_views(out@) =~= action_views(old(out)@)
                                + start.idle_actions(done));
                        }
                    } else {
                        self.put_conn(cid, conn);
                        assert(!start.is_idle(cid, now));
                    }
                },
                None => {},
            }
            i = i + 1;
        }
        proof {
            assert(keys@.take(i as int) =~= keys@);
            assert forall|cid: u32| done.contains(cid) <==> #[trigger] start.is_idle(cid, now) by {}
            assert(self@.conns =~= start.conns.restrict(
                Set::new(|cid: u32| !start.is_idle(cid, now)),
            ));
        }
        Ghost(done)
    }

    /// Removes stale entries. Returns which, in the order of the actions.
    fn sweep_stale_pending(&mut self, now: u64, out: &mut Vec<Action>) -> (r: Ghost<Seq<u32>>)
        requires
            old(self).wf(),
        ensures
            final(self).wf(),
            old(self)@.lists_stale(r@, now),
            action_views(final(out)@) == action_views(old(out)@) + old(self)@.stale_actions(r@),
            final(self)@ == (ReassemblerView {
                pending: old(self)@.pending.restrict(
                    Set::new(|cid: u32| !old(self)@.is_stale(cid, now)),
                ),
                closed: final(self)@.closed,
                ..old(self)@
            }),
            forall|cid: u32| #[trigger]
                final(self)@.closed.contains_key(cid) <==> old(self)@.closed.contains_key(cid)
                    || old(self)@.is_stale(cid, now),
            forall|cid: u32| #[trigger]
                final(self)@.closed.contains_key(cid) ==> final(self)@.closed[cid] == (if old(
                    self,
                )@.is_stale(cid, now) {
                    now
                } else {
                    old(self)@.closed[cid]
                }),
    {
        let ghost start = self@;
        let ghost mut done: Seq<u32> = Seq::empty();
        let keys = waiting_keys(&self.pending);
        let mut i: usize = 0;
        assert(action_views(out@) =~= action_views(out@) + start.stale_actions(done));
        while i < keys.len()
            invariant
                i <= keys@.len(),
                self.wf(),
                start == old(self)@,
                keys@.no_duplicates(),
                forall|k: u32| keys@.contains(k) <==> #[trigger] start.pending.contains_key(k),
                done.no_duplicates(),
                forall|k: u32| #[trigger]
                    done.contains(k) <==> start.is_stale(k, now) && keys@.take(i as int).contains(k),
                action_views(out@) == action_views(old(out)@) + start.stale_actions(done),
                self@ == (ReassemblerView {
                    pending: self@.pending,
                    closed: self@.closed,
                    ..start
                }),
                forall|k: u32| #[trigger]
                    self@.pending.contains_key(k) <==> start.pending.contains_key(k)
                        && !done.contains(k),
                forall|k: u32| #[trigger]
                    self@.pending.contains_key(k) ==> self@.pending[k] == start.pending[k],
                forall|k: u32| #[trigger]
                    self@.closed.contains_key(k) <==> start.closed.contains_key(k)
                        || done.contains(k),
                forall|k: u32| #[trigger]
                    self@.closed.contains_key(k) ==> self@.closed[k] == (if done.contains(k) {
                        now
                    } else {
                        start.closed[k]
                    }),
            decreases keys.len() - i,
        {
            let cid: u32 = keys[i];
            let ghost prefix = keys@.take(i as int);
            proof {
                assert(keys@.take(i + 1) =~= prefix.push(cid));
                assert(keys@.contains(cid));
                assert(!prefix.contains(cid)) by {
                    if prefix.contains(cid) {
                        let j = prefix.index_of(cid);
                        assert(keys@[j] == keys@[i as int]);
                    }
                }
                assert(!done.contains(cid));
                lemma_push_contains(prefix, cid);
            }
            let since: u64 = match waiting_state(&self.pending, cid) {
                Some((since, _)) => since,
                None => now,
            };
            assert(self@.pending.contains_key(cid));
            if elapsed_secs(now, since) >= PENDING_TTL_SECS {
                match self.remove_pending(cid) {
                    Some(entry) => {
                        Self::cancel_entry(cid, &entry, out);
                    },
                    None => {},
                }
                stamps_insert(&mut self.closed, cid, now);
                emit(out, Action::Send(Frame::rst(cid)));
                proof {
                    let was = done;
                    done = done.push(cid);
                    lemma_push_contains(was, cid);
                    assert(done.drop_last() =~= was);
                    assert(start.is_stale(cid, now));
                    assert(action_views(out@) =~= action_views(old(out)@) + start.stale_actions(
                        done,
                    ));
                }
            } else {
                assert(!start.is_stale(cid, now));
            }
            i = i + 1;
        }
        proof {
            assert(keys@.take(i as int) =~= keys@);
            assert forall|cid: u32| done.contains(cid) <==> #[trigger] start.is_stale(cid, now) by {}
            assert(self@.pending =~= start.pending.restrict(
                Set::new(|cid: u32| !start.is_stale(cid, now)),
            ));
        }
        Ghost(done)
    }

    /// How many connections there are.
    pub fn active(&self) -> (r: usize)
        requires
            self.wf(),
        ensures
            r == self@.conns.dom().len(),
    {
        assert(self@.conns.dom() =~= egresses(self.conns).dom());
        egresses_len(&self.conns)
    }

    /// How many connections have frames that wait.
    pub fn pending_cids(&self) -> (r: usize)
        requires
            self.wf(),
        ensures
            r == self@.pending.dom().len(),
    {
        assert(self@.pending.dom() =~= waiting(self.pending).dom());
        waiting_len(&self.pending)
    }

    /// How many payload bytes wait.
    pub fn pending_bytes(&self) -> (r: usize)
        requires
            self.wf(),
        ensures
            r == self@.used(),
    {
        self.pending_bytes
    }

    /// How many handshakes are under way.
    pub fn handshakes(&self) -> (r: usize)
        requires
            self.wf(),
        ensures
            r == self@.handshaking.dom().len(),
    {
        stamps_len(&self.handshaking)
    }

    /// Takes the count of resets and starts it anew.
    pub fn take_resets(&mut self) -> (r: u64)
        requires
            old(self).wf(),
        ensures
            final(self).wf(),
            r == old(self)@.resets,
            final(self)@ == (ReassemblerView { resets: 0, ..old(self)@ }),
    {
        let r: u64 = self.resets;
        self.resets = 0;
        r
    }

    /// Whether a connection is set up.
    pub fn has_conn(&self, cid: u32) -> (r: bool)
        ensures
            r == self@.conns.contains_key(cid),
    {
        egresses_contains(&self.conns, cid)
    }

    /// Whether a connection is remembered as closed.
    pub fn is_closed(&self, cid: u32) -> (r: bool)
        ensures
            r == self@.closed.contains_key(cid),
    {
        stamps_contains(&self.closed, cid)
    }

    /// Whether frames wait for a connection that was given up.
    pub fn is_cancelled(&self, cid: u32) -> (r: bool)
        ensures
            r == (self@.pending.contains_key(cid) && self@.pending[cid].cancelled),
    {
        match waiting_state(&self.pending, cid) {
            Some((_, cancelled)) => cancelled,
            None => false,
        }
    }

    /// Whether a handshake is under way.
    pub fn is_handshaking(&self, cid: u32) -> (r: bool)
        ensures
            r == self@.handshaking.contains_key(cid),
    {
        stamps_contains(&self.handshaking, cid)
    }
}

/// What is done about stale entries depends on the entries alone.
proof fn lemma_stale_actions_agree(a: ReassemblerView, b: ReassemblerView, cids: Seq<u32>)
    requires
        a.pending == b.pending,
    ensures
        a.stale_actions(cids) == b.stale_actions(cids),
    decreases cids.len(),
{
    if cids.len() > 0 {
        lemma_stale_actions_agree(a, b, cids.drop_last());
    }
}

/// Takes in the frames that waited for a connection: the chunks that are now in
/// order, the number in the last FIN, and whether the window overflowed.
fn replay_frames(conn: &mut VirtConnDe, frames: &Vec<Frame>) -> (r: (Vec<Bytes>, Option<u64>, bool))
    requires
        old(conn).reorder.wf(),
    ensures
        final(conn).reorder.wf(),
        ({
            let want = replay(old(conn)@.reorder, frame_views(frames@));
            &&& final(conn)@ == (ConnView { reorder: want.reorder, ..old(conn)@ })
            &&& contents(r.0@) == want.ready
            &&& r.1 == want.fin
            &&& r.2 == want.broken
        }),
{
    let ghost all = frame_views(frames@);
    let ghost start = conn@;
    let mut ready: Vec<Bytes> = Vec::new();
    let mut fin: Option<u64> = None;
    let mut i: usize = 0;
    assert(contents(ready@) =~= Seq::empty());
    assert(all.take(0) =~= Seq::empty());
    while i < frames.len()
        invariant
            i <= frames@.len(),
            all == frame_views(frames@),
            start == old(conn)@,
            conn.reorder.wf(),
            ({
                let want = replay(start.reorder, all.take(i as int));
                &&& conn@ == (ConnView { reorder: want.reorder, ..start })
                &&& contents(ready@) == want.ready
                &&& fin == want.fin
                &&& !want.broken
            }),
        decreases frames.len() - i,
    {
        let f = &frames[i];
        proof {
            assert(all.take(i + 1).drop_last() =~= all.take(i as int));
            assert(all.take(i + 1).last() == f@);
        }
        if f.flags & FLAG_DATA != 0 {
            let mut pushed = conn.reorder.push(f.seq, f.payload.clone());
            if pushed.overflow {
                proof {
                    lemma_replay_broken(start.reorder, all, i + 1);
                }
                return (ready, fin, true);
            }
            let ghost was = ready@;
            let ghost more = pushed.ready@;
            ready.append(&mut pushed.ready);
            assert(contents(ready@) =~= contents(was) + contents(more));
        } else if f.flags & FLAG_FIN != 0 {
            fin = Some(f.seq);
        }
        i = i + 1;
    }
    assert(all.take(i as int) =~= all);
    (ready, fin, false)
}

/// A broken replay stays as it was when it broke.
proof fn lemma_replay_broken(start: ReorderView, frames: Seq<FrameView>, n: int)
    requires
        0 <= n <= frames.len(),
        replay(start, frames.take(n)).broken,
    ensures
        replay(start, frames) == replay(start, frames.take(n)),
    decreases frames.len(),
{
    if n < frames.len() {
        assert(frames.drop_last().take(n) =~= frames.take(n));
        lemma_replay_broken(start, frames.drop_last(), n);
    } else {
        assert(frames.take(n) =~= frames);
    }
}

/// Forwards the datagrams that waited for an association.
fn forward_all(cid: u32, frames: &Vec<Frame>, out: &mut Vec<Action>)
    ensures
        action_views(final(out)@) == action_views(old(out)@) + forwards(
            cid,
            frame_views(frames@),
        ),
{
    let ghost all = frame_views(frames@);
    let mut i: usize = 0;
    assert(all.take(0) =~= Seq::empty());
    assert(action_views(out@) =~= action_views(out@) + Seq::empty());
    while i < frames.len()
        invariant
            i <= frames@.len(),
            all == frame_views(frames@),
            action_views(out@) == action_views(old(out)@) + forwards(cid, all.take(i as int)),
        decreases frames.len() - i,
    {
        let f = &frames[i];
        proof {
            assert(all.take(i + 1).drop_last() =~= all.take(i as int));
            assert(all.take(i + 1).last() == f@);
        }
        if f.flags & FLAG_DATA != 0 {
            emit(out, Action::Forward { cid, datagram: f.payload.clone() });
            assert(action_views(out@) =~= action_views(old(out)@) + forwards(cid, all.take(i + 1)));
        }
        i = i + 1;
    }
    assert(all.take(i as int) =~= all);
}

/// Room that was made is there.
proof fn lemma_reserve_room(s: ReassemblerView, keep: u32, need: nat, now: u64)
    requires
        s.pending.dom().finite(),
        s.reserve(keep, need, now).2,
    ensures
        s.reserve(keep, need, now).0.used() + need <= MAX_PENDING_BYTES,
    decreases s.pending.dom().len(),
{
    if s.used() + need > MAX_PENDING_BYTES {
        if exists|cid: u32| s.is_oldest(keep, cid) {
            let (next, first) = s.evict(s.oldest(keep), now);
            lemma_reserve_room(next, keep, need, now);
        }
    }
}

/// Only one entry has waited longest.
proof fn lemma_oldest_unique(s: ReassemblerView, keep: u32, a: u32, b: u32)
    requires
        s.is_oldest(keep, a),
        s.is_oldest(keep, b),
    ensures
        a == b,
{
    assert(s.evictable(keep, a));
    assert(s.evictable(keep, b));
}

/// Adds an action to a list.
fn emit(out: &mut Vec<Action>, a: Action)
    ensures
        action_views(final(out)@) == action_views(old(out)@).push(a@),
{
    out.push(a);
    proof {
        assert(action_views(out@) =~= action_views(old(out)@).push(a@));
    }
}

/// The data frame that carries a response to a UDP association: the datagram, wrapped
/// with the address that it came from. A datagram that no frame can carry is dropped.
pub open spec fn response_frame(cid: u32, seq: u64, from: SocketAddress, data: Seq<u8>) -> Option<
    FrameView,
> {
    let d = datagram(address_bytes(normal_text(from.ip), from.port)->Some_0, data);
    if d.len() <= MAX_PAYLOAD {
        Some(FrameView::data(cid, seq, d))
    } else {
        None
    }
}

/// Wraps a response to a UDP association into the next frame, if a frame can carry it.
pub fn udp_response(source: &FrameSource, from: SocketAddress, data: &[u8]) -> (r: Option<Frame>)
    requires
        data@.len() + 262 <= MAX_BUFFER,
    ensures
        address_bytes(normal_text(from.ip), from.port) is Some,
        r is Some <==> response_frame(source.conn_id(), source.seq(), from, data@) is Some,
        r is Some ==> Some(r->Some_0@) == response_frame(
            source.conn_id(),
            source.seq(),
            from,
            data@,
        ),
{
    proof {
        law_normal_text(from.ip);
    }
    let target = TargetAddr { address: normalize_ip(from.ip), port: from.port };
    match encode_udp_datagram(&target, data) {
        Ok(dgram) => {
            if dgram.len() > MAX_PAYLOAD {
                None
            } else {
                Some(source.payload(dgram))
            }
        },
        Err(_) => None,
    }
}

/// The frame that answers one which was lost on a dying tunnel: a control frame is
/// sent again; lost data breaks its stream, so its connection is reset.
pub open spec fn replacement(f: FrameView) -> FrameView {
    if flagged(f.flags, FLAG_SYN | FLAG_FIN | FLAG_RST) {
        f
    } else {
        FrameView::rst(f.conn_id)
    }
}

/// The frames to send in place of those that were lost on a dying tunnel.
pub fn replace_lost(lost: Vec<Frame>) -> (r: Vec<Frame>)
    ensures
        frame_views(r@) == frame_views(lost@).map_values(|f: FrameView| replacement(f)),
{
    let mut r: Vec<Frame> = Vec::new();
    let mut i: usize = 0;
    while i < lost.len()
        invariant
            i <= lost@.len(),
            r@.len() == i,
            forall|j: int| 0 <= j < i ==> (#[trigger] r@[j])@ == replacement(lost@[j]@),
        decreases lost.len() - i,
    {
        let f = &lost[i];
        if f.flags & (FLAG_SYN | FLAG_FIN | FLAG_RST) != 0 {
            r.push(f.clone());
        } else {
            r.push(Frame::rst(f.conn_id));
        }
        i = i + 1;
    }
    assert(frame_views(r@) =~= frame_views(lost@).map_values(|f: FrameView| replacement(f)));
    r
}

/// What a sound reassembler holds back is counted truly and within its limits.
pub proof fn law_waiting_stays_bounded(r: &Reassembler)
    requires
        r.wf(),
    ensures
        r@.inv(),
        r@.used() <= MAX_PENDING_BYTES,
{
}

/// Data of a connection that is remembered as closed is answered with an RST and
/// with nothing else.
pub proof fn law_late_data_is_reset(s: ReassemblerView, f: FrameView, now: u64)
    requires
        !s.conns.contains_key(f.conn_id),
        s.closed.contains_key(f.conn_id),
        flagged(f.flags, FLAG_DATA),
        !flagged(f.flags, FLAG_SYN),
    ensures
        s.on_frame(f, now) == (s, seq![ActionView::Send(FrameView::rst(f.conn_id))]),
{
}

/// An RST ends its connection whatever state it is in: the connection is not there
/// any more and its id is closed, a SYN that comes later is not acted upon, and an
/// attempt to connect that succeeds later is dropped.
pub proof fn law_rst_is_final(s: ReassemblerView, f: FrameView, syn: FrameView, now: u64, later: u64)
    requires
        flagged(f.flags, FLAG_RST),
        !flagged(f.flags, FLAG_SYN) && !flagged(f.flags, FLAG_DATA) && !flagged(f.flags, FLAG_FIN),
        syn.conn_id == f.conn_id,
        flagged(syn.flags, FLAG_SYN),
    ensures
        ({
            let after = s.on_frame(f, now).0;
            &&& !after.conns.contains_key(f.conn_id)
            &&& after.closed.contains_key(f.conn_id)
            &&& after.on_frame(syn, later).1.len() == 0
            &&& !after.on_frame(syn, later).0.conns.contains_key(f.conn_id)
            &&& forall|is_udp: bool|
                {
                    let (last, token, actions) = #[trigger] after.on_connected(
                        f.conn_id,
                        is_udp,
                        later,
                    );
                    token is None && actions.len() == 0 && !last.conns.contains_key(f.conn_id)
                }
        }),
{
}

/// While a connection is there or is being set up, a SYN for it asks for nothing and
/// touches neither the connection nor the frames that wait for it.
pub proof fn law_one_handshake_at_a_time(s: ReassemblerView, syn: FrameView, now: u64)
    requires
        flagged(syn.flags, FLAG_SYN),
        s.conns.contains_key(syn.conn_id) || s.handshaking.contains_key(syn.conn_id),
    ensures
        ({
            let (next, actions) = s.on_frame(syn, now);
            &&& actions.len() == 0
            &&& next.conns == s.conns
            &&& next.pending == s.pending
            &&& next.closed == s.closed
        }),
{
}

/// A stream is told apart from a broken one: an entry that is no longer there, and a
/// frame that was not kept, belong to connections that are closed and whose other
/// end is sent an RST.
pub proof fn law_nothing_is_dropped_silently(s: ReassemblerView, f: FrameView, need: nat, now: u64)
    requires
        s.pending.dom().finite(),
    ensures
        ({
            let (next, actions) = s.park(f, need, now);
            let cid = f.conn_id;
            &&& forall|other: u32| #[trigger]
                s.pending.contains_key(other) && !next.pending.contains_key(other)
                    ==> next.closed.contains_key(other) && actions.contains(
                    ActionView::Send(FrameView::rst(other)),
                )
            &&& next.pending.contains_key(cid) && next.pending[cid].frames.len() > 0
                && next.pending[cid].frames.last() == f || (next.closed.contains_key(cid)
                && actions.contains(ActionView::Send(FrameView::rst(cid))))
        }),
{
    let cid = f.conn_id;
    let rst = ActionView::Send(FrameView::rst(cid));
    if !s.pending.contains_key(cid) && s.pending.dom().len() >= MAX_PENDING_CIDS {
        assert(s.fail_pending(cid, now).1.last() == rst);
    } else {
        lemma_reserve_tells(s, cid, need, now);
        let (next, evicted, room) = s.reserve(cid, need, now);
        let entry = next.entry(cid, now);
        if room && entry.frames.len() < MAX_PENDING_FRAMES_PER_CID {
            assert(entry.frames.push(f).last() == f);
        } else {
            let (last, failed) = next.fail_pending(cid, now);
            let actions = evicted + failed;
            assert(failed.last() == rst);
            assert(actions[actions.len() - 1] == rst);
            assert forall|other: u32| #[trigger]
                s.pending.contains_key(other) && !last.pending.contains_key(
                    other,
                ) implies last.closed.contains_key(other) && actions.contains(
                ActionView::Send(FrameView::rst(other)),
            ) by {
                assert(!next.pending.contains_key(other));
                let told = ActionView::Send(FrameView::rst(other));
                let j = evicted.index_of(told);
                assert(actions[j] == told);
            }
        }
    }
}

proof fn lemma_reserve_tells(s: ReassemblerView, keep: u32, need: nat, now: u64)
    requires
        s.pending.dom().finite(),
    ensures
        ({
            let (next, actions, room) = s.reserve(keep, need, now);
            &&& forall|other: u32| #[trigger]
                s.pending.contains_key(other) && !next.pending.contains_key(other)
                    ==> next.closed.contains_key(other) && actions.contains(
                    ActionView::Send(FrameView::rst(other)),
                )
            &&& forall|other: u32| #[trigger]
                s.closed.contains_key(other) ==> next.closed.contains_key(other)
        }),
    decreases s.pending.dom().len(),
{
    if s.used() + need > MAX_PENDING_BYTES && exists|cid: u32| s.is_oldest(keep, cid) {
        let oldest = s.oldest(keep);
        let (next, first) = s.evict(oldest, now);
        lemma_reserve_tells(next, keep, need, now);
        let (last, rest, room) = next.reserve(keep, need, now);
        let actions = first + rest;
        assert forall|other: u32| #[trigger]
            s.pending.contains_key(other) && !last.pending.contains_key(
                other,
            ) implies last.closed.contains_key(other) && actions.contains(
            ActionView::Send(FrameView::rst(other)),
        ) by {
            let told = ActionView::Send(FrameView::rst(other));
            if other == oldest {
                assert(next.closed.contains_key(other));
                assert(actions[first.len() - 1] == told);
            } else {
                assert(next.pending.contains_key(other));
                let j = rest.index_of(told);
                assert(actions[first.len() + j] == told);
            }
        }
        assert forall|other: u32| #[trigger] s.closed.contains_key(
            other,
        ) implies last.closed.contains_key(other) by {
            assert(next.closed.contains_key(other));
        }
    }
}

/// The egress write half closes once at most, stays closed, and is closed by force
/// whatever is missing. Without force it closes only when everything below the
/// number in the FIN has been delivered.
pub proof fn law_half_close(c: ConnView, force: bool, again: bool)
    ensures
        ({
            let (d, shut) = c.close_write(force);
            &&& shut ==> d.half_close == HalfClose::Closed && !d.close_write(again).1
            &&& c.half_close == HalfClose::Closed ==> d == c && !shut
            &&& c.close_write(true).0.half_close == HalfClose::Closed
            &&& !force && shut ==> c.reorder.expected >= c.fin_seq
        }),
{
}

/// A connection leaves the table without being reset only when both directions have
/// ended and everything was written.
pub proof fn law_finish_needs_both_ends(s: ReassemblerView, cid: u32, now: u64)
    ensures
        s.conns.contains_key(cid) && !s.finish(cid, now).0.conns.contains_key(cid) <==> (
        s.conns.contains_key(cid) && s.conns[cid].fin_received && s.conns[cid].egress_eof
            && s.conns[cid].half_close == HalfClose::Closed),
        s.conns.contains_key(cid) && !s.finish(cid, now).0.conns.contains_key(cid) ==> s.finish(
            cid,
            now,
        ).0.closed.contains_key(cid),
{
}

/// The data frames of a list, as pushes into a reorder window.
pub open spec fn pushes(frames: Seq<FrameView>) -> Seq<(u64, Seq<u8>)>
    decreases frames.len(),
{
    if frames.len() == 0 {
        Seq::empty()
    } else if flagged(frames.last().flags, FLAG_DATA) {
        pushes(frames.drop_last()).push((frames.last().seq, frames.last().payload))
    } else {
        pushes(frames.drop_last())
    }
}

/// Frames that waited for their connection are delivered as if they had come one by
/// one after it was set up.
pub proof fn law_waiting_keeps_the_stream(start: ReorderView, frames: Seq<FrameView>)
    requires
        !replay(start, frames).broken,
    ensures
        (replay(start, frames).reorder, replay(start, frames).ready) == run(start, pushes(frames)),
        !overflows(start, pushes(frames)),
    decreases frames.len(),
{
    if frames.len() > 0 {
        law_waiting_keeps_the_stream(start, frames.drop_last());
        if flagged(frames.last().flags, FLAG_DATA) {
            let all = pushes(frames);
            assert(all.drop_last() =~= pushes(frames.drop_last()));
        }
    }
}

/// The chunks that a list of actions queues for a connection's target.
pub open spec fn queued(actions: Seq<ActionView>, cid: u32) -> Seq<Seq<u8>>
    decreases actions.len(),
{
    if actions.len() == 0 {
        Seq::empty()
    } else {
        let before = queued(actions.drop_last(), cid);
        match actions.last() {
            ActionView::Deliver { cid: to, token, chunks, count } => if to == cid {
                before + chunks
            } else {
                before
            },
            _ => before,
        }
    }
}

/// A reassembler after a list of data frames of one connection, each of which was
/// queued for the target at once, and the chunks that were queued.
pub open spec fn feed(s: ReassemblerView, cid: u32, frames: Seq<FrameView>, now: u64) -> (
    ReassemblerView,
    Seq<Seq<u8>>,
)
    decreases frames.len(),
{
    if frames.len() == 0 {
        (s, Seq::empty())
    } else {
        let (t, out) = feed(s, cid, frames.drop_last(), now);
        let f = frames.last();
        let (u, actions) = t.on_frame(f, now);
        let v = if actions.len() == 0 {
            u
        } else {
            u.on_delivered(cid, u.conns[cid].token, Some(f.payload.len() as u64), true, now).0
        };
        (v, out + queued(actions, cid))
    }
}

/// How far a connection `c` has come, with its window at `w`: it is there with that
/// window and has not ended, or it has ended with everything below the number in its
/// FIN delivered.
spec fn has_come(s: ReassemblerView, cid: u32, c: ConnView, w: ReorderView) -> bool {
    if s.conns.contains_key(cid) {
        let d = s.conns[cid];
        &&& d.reorder == w
        &&& (d.token, d.is_udp, d.fin_received, d.fin_seq, d.egress_eof) == (
            c.token,
            c.is_udp,
            c.fin_received,
            c.fin_seq,
            c.egress_eof,
        )
        &&& !d.is_done()
    } else {
        s.closed.contains_key(cid) && c.fin_received && c.egress_eof && w.expected >= c.fin_seq
    }
}

proof fn lemma_feed(s: ReassemblerView, cid: u32, frames: Seq<FrameView>, now: u64)
    requires
        s.conns.contains_key(cid),
        !s.conns[cid].is_udp,
        !s.conns[cid].is_done(),
        forall|i: int|
            0 <= i < frames.len() ==> (#[trigger] frames[i]).conn_id == cid && frames[i].flags
                == FLAG_DATA && (s.conns[cid].fin_received ==> frames[i].seq
                < s.conns[cid].fin_seq),
        !overflows(s.conns[cid].reorder, pushes(frames)),
    ensures
        feed(s, cid, frames, now).1 == run(s.conns[cid].reorder, pushes(frames)).1,
        has_come(
            feed(s, cid, frames, now).0,
            cid,
            s.conns[cid],
            run(s.conns[cid].reorder, pushes(frames)).0,
        ),
    decreases frames.len(),
{
    assert(FLAG_DATA & FLAG_SYN == 0 && FLAG_DATA & FLAG_DATA != 0) by (bit_vector);
    if frames.len() > 0 {
        let f = frames[frames.len() - 1];
        let prev = frames.drop_last();
        let all = pushes(frames);
        assert(all.drop_last() =~= pushes(prev));
        assert forall|i: int| 0 <= i < prev.len() implies (#[trigger] prev[i]).conn_id == cid
            && prev[i].flags == FLAG_DATA && (s.conns[cid].fin_received ==> prev[i].seq
            < s.conns[cid].fin_seq) by {
            assert(prev[i] == frames[i]);
        }
        lemma_feed(s, cid, prev, now);
        let (t, out) = feed(s, cid, prev, now);
        let (u, actions) = t.on_frame(f, now);
        let w = run(s.conns[cid].reorder, pushes(prev)).0;
        let r = w.push(f.seq, f.payload).1;
        if t.conns.contains_key(cid) && r.accepted {
            assert(actions.drop_last() =~= Seq::<ActionView>::empty());
            assert(queued(actions.drop_last(), cid) =~= Seq::<Seq<u8>>::empty());
            assert(Seq::<Seq<u8>>::empty() + r.ready =~= r.ready);
        } else if t.conns.contains_key(cid) {
            assert(actions.len() == 0);
        } else {
            assert(actions == seq![ActionView::Send(FrameView::rst(cid))]);
            assert(actions.drop_last() =~= Seq::<ActionView>::empty());
            assert(queued(actions.drop_last(), cid) =~= Seq::<Seq<u8>>::empty());
        }
        assert(queued(actions, cid) =~= r.ready);
    }
}

/// The data frames of a TCP connection, however they arrive, are queued for its target
/// as the reorder window delivers them: in order, each once, as long as the window does
/// not overflow. After a FIN this goes on for the frames below its number; where the
/// target has ended too, the connection goes when the last of them is there.
pub proof fn law_data_reaches_the_target_in_order(
    s: ReassemblerView,
    cid: u32,
    frames: Seq<FrameView>,
    now: u64,
)
    requires
        s.conns.contains_key(cid),
        !s.conns[cid].is_udp,
        !s.conns[cid].is_done(),
        forall|i: int|
            0 <= i < frames.len() ==> (#[trigger] frames[i]).conn_id == cid && frames[i].flags
                == FLAG_DATA && (s.conns[cid].fin_received ==> frames[i].seq
                < s.conns[cid].fin_seq),
        !overflows(s.conns[cid].reorder, pushes(frames)),
    ensures
        ({
            let c = s.conns[cid];
            let (t, out) = feed(s, cid, frames, now);
            let (w, delivered) = run(c.reorder, pushes(frames));
            &&& out == delivered
            &&& t.conns.contains_key(cid) ==> t.conns[cid].reorder == w && t.conns[cid].token
                == c.token
            &&& !t.conns.contains_key(cid) ==> c.fin_received && c.egress_eof && w.expected
                >= c.fin_seq
        }),
{
    lemma_feed(s, cid, frames, now);
}

/// What a list of indices picks from the frames that carry a list of chunks.
pub open spec fn arrived(cid: u32, chunks: Seq<Seq<u8>>, arrival: Seq<int>) -> Seq<FrameView> {
    arrival.map_values(|k: int| data_frames(cid, chunks)[k])
}

/// The pushes of the frames that carry a list of chunks.
pub(crate) proof fn lemma_arrived_pushes(cid: u32, chunks: Seq<Seq<u8>>, arrival: Seq<int>)
    requires
        chunks.len() <= u64::MAX,
        forall|i: int| 0 <= i < arrival.len() ==> 0 <= #[trigger] arrival[i] < chunks.len(),
    ensures
        pushes(arrived(cid, chunks, arrival)).len() == arrival.len(),
        forall|i: int|
            0 <= i < arrival.len() ==> #[trigger] pushes(arrived(cid, chunks, arrival))[i] == (
                (arrival[i] + 1) as u64,
                chunks[arrival[i]],
            ),
    decreases arrival.len(),
{
    assert(FLAG_DATA & FLAG_DATA != 0) by (bit_vector);
    if arrival.len() > 0 {
        let prev = arrival.drop_last();
        let n = arrival.len() - 1;
        assert forall|i: int| 0 <= i < prev.len() implies 0 <= #[trigger] prev[i]
            < chunks.len() by {
            assert(prev[i] == arrival[i]);
        }
        lemma_arrived_pushes(cid, chunks, prev);
        let frames = arrived(cid, chunks, arrival);
        assert(frames.drop_last() =~= arrived(cid, chunks, prev));
        assert(0 <= arrival[n] < chunks.len());
        assert forall|i: int| 0 <= i < arrival.len() implies #[trigger] pushes(frames)[i] == (
            (arrival[i] + 1) as u64,
            chunks[arrival[i]],
        ) by {
            if i < n {
                assert(pushes(frames)[i] == pushes(arrived(cid, chunks, prev))[i]);
                assert(prev[i] == arrival[i]);
            }
        }
    }
}

/// What one end sends as numbered frames on a new connection reaches the target, over
/// whichever tunnels the frames come: always as a prefix of what was sent, and all of it
/// when every frame has come.
pub proof fn law_upload_arrives_whole(
    s: ReassemblerView,
    cid: u32,
    chunks: Seq<Seq<u8>>,
    arrival: Seq<int>,
    now: u64,
)
    requires
        s.conns.contains_key(cid),
        s.conns[cid] == ConnView::new(s.conns[cid].token, s.window, false, s.conns[cid].created_at),
        chunks.len() <= u64::MAX,
        forall|i: int| 0 <= i < arrival.len() ==> 0 <= #[trigger] arrival[i] < chunks.len(),
        !overflows(s.conns[cid].reorder, pushes(arrived(cid, chunks, arrival))),
    ensures
        ({
            let out = feed(s, cid, arrived(cid, chunks, arrival), now).1;
            &&& out.len() <= chunks.len()
            &&& out == chunks.take(out.len() as int)
            &&& (forall|k: int| 0 <= k < chunks.len() ==> #[trigger] arrival.contains(k)) ==> out
                == chunks
        }),
{
    let frames = arrived(cid, chunks, arrival);
    let input = pushes(frames);
    lemma_arrived_pushes(cid, chunks, arrival);
    assert(cut_from(input, chunks)) by {
        assert forall|i: int| 0 <= i < input.len() implies 1 <= (#[trigger] input[i]).0
            <= chunks.len() && input[i].1 == chunks[input[i].0 - 1] by {
            assert(0 <= arrival[i] < chunks.len());
        }
    }
    law_data_reaches_the_target_in_order(s, cid, frames, now);
    law_delivers_in_order(s.window, entry_cap(s.window), input, chunks);
    if forall|k: int| 0 <= k < chunks.len() ==> #[trigger] arrival.contains(k) {
        assert forall|n: int| 1 <= n <= chunks.len() implies #[trigger] arrives(input, n) by {
            assert(arrival.contains(n - 1));
            let i = arrival.index_of(n - 1);
            assert(input[i].0 == n);
        }
        law_delivers_everything(s.window, entry_cap(s.window), input, chunks);
    }
}

/// Whatever a sweep gives up, an idle connection or frames that have waited for too
/// long, the other end is told, and the id is remembered as closed.
pub proof fn law_sweep_tells_the_other_end(
    s: ReassemblerView,
    actions: Seq<ActionView>,
    cid: u32,
    now: u64,
)
    requires
        s.sweeps(actions, now),
        s.is_idle(cid, now) || s.is_stale(cid, now),
    ensures
        actions.contains(ActionView::Send(FrameView::rst(cid))),
        s.swept(now).closed.contains_key(cid),
{
    let rst = ActionView::Send(FrameView::rst(cid));
    let (idle, stale) = choose|idle: Seq<u32>, stale: Seq<u32>|
        s.lists_idle(idle, now) && s.lists_stale(stale, now) && actions == #[trigger] s.idle_actions(
            idle,
        ) + #[trigger] s.stale_actions(stale);
    if s.is_idle(cid, now) {
        assert(idle.contains(cid));
        lemma_idle_told(s, idle, cid);
        let j = s.idle_actions(idle).index_of(rst);
        assert(actions[j] == rst);
    } else {
        assert(stale.contains(cid));
        lemma_stale_told(s, stale, cid);
        let j = s.stale_actions(stale).index_of(rst);
        assert(actions[s.idle_actions(idle).len() + j] == rst);
    }
}

proof fn lemma_idle_told(s: ReassemblerView, cids: Seq<u32>, cid: u32)
    requires
        cids.contains(cid),
    ensures
        s.idle_actions(cids).contains(ActionView::Send(FrameView::rst(cid))),
    decreases cids.len(),
{
    let rst = ActionView::Send(FrameView::rst(cid));
    let all = s.idle_actions(cids);
    if cids.last() == cid {
        assert(all.last() == rst);
    } else {
        let prev = cids.drop_last();
        let i = cids.index_of(cid);
        assert(prev[i] == cid);
        lemma_idle_told(s, prev, cid);
        let j = s.idle_actions(prev).index_of(rst);
        assert(all[j] == rst);
    }
}

proof fn lemma_stale_told(s: ReassemblerView, cids: Seq<u32>, cid: u32)
    requires
        cids.contains(cid),
    ensures
        s.stale_actions(cids).contains(ActionView::Send(FrameView::rst(cid))),
    decreases cids.len(),
{
    let rst = ActionView::Send(FrameView::rst(cid));
    let all = s.stale_actions(cids);
    if cids.last() == cid {
        assert(all.last() == rst);
    } else {
        let prev = cids.drop_last();
        let i = cids.index_of(cid);
        assert(prev[i] == cid);
        lemma_stale_told(s, prev, cid);
        let j = s.stale_actions(prev).index_of(rst);
        assert(all[j] == rst);
    }
}

/// A datagram goes to its target as it is: it is neither put in order nor held back, and
/// never resets its association.
pub proof fn law_datagrams_pass_as_they_are(s: ReassemblerView, f: FrameView, now: u64)
    requires
        s.conns.contains_key(f.conn_id),
        s.conns[f.conn_id].is_udp,
        flagged(f.flags, FLAG_DATA),
        !flagged(f.flags, FLAG_SYN),
    ensures
        ({
            let cid = f.conn_id;
            let (next, actions) = s.on_frame(f, now);
            &&& actions == seq![ActionView::Forward { cid, datagram: f.payload }]
            &&& next.conns.contains_key(cid)
            &&& next.conns[cid].reorder == s.conns[cid].reorder
            &&& next.pending == s.pending
        }),
{
}

/// News of a connection that is gone does not touch another one under the same id.
pub proof fn law_stale_news_is_ignored(
    s: ReassemblerView,
    cid: u32,
    token: u64,
    count: Option<u64>,
    ok: bool,
    len: nat,
    now: u64,
)
    requires
        !s.is_current(cid, token),
    ensures
        s.on_delivered(cid, token, count, ok, now).0 == s,
        s.on_delivered(cid, token, count, ok, now).1.len() == 0,
        s.on_half_close_timeout(cid, token).0 == s,
        s.on_half_close_timeout(cid, token).1.len() == 0,
        s.on_response_sent(cid, token, len, now) == s,
        s.on_response_failed(cid, token, now).0 == s,
        s.on_response_failed(cid, token, now).1.len() == 0,
        s.on_egress_ended(cid, token, ok, now).0 == s,
{
}

/// A connection that is set up is not touched by frames of another one, nor by what came
/// of carrying out what they asked for.
pub proof fn law_connections_are_independent(
    s: ReassemblerView,
    f: FrameView,
    cid: u32,
    token: u64,
    count: Option<u64>,
    ok: bool,
    now: u64,
)
    requires
        s.pending.dom().finite(),
        s.conns.contains_key(cid),
        f.conn_id != cid,
    ensures
        s.on_frame(f, now).0.conns.contains_key(cid),
        s.on_frame(f, now).0.conns[cid] == s.conns[cid],
        s.on_delivered(f.conn_id, token, count, ok, now).0.conns.contains_key(cid),
        s.on_delivered(f.conn_id, token, count, ok, now).0.conns[cid] == s.conns[cid],
        s.on_connected(f.conn_id, ok, now).0.conns.contains_key(cid),
        s.on_connected(f.conn_id, ok, now).0.conns[cid] == s.conns[cid],
{
    lemma_reserve_keeps_conns(s, f.conn_id, f.payload.len(), now);
    lemma_reserve_keeps_conns(s, f.conn_id, 0, now);
}

/// Making room for frames that wait touches no connection that is set up.
proof fn lemma_reserve_keeps_conns(s: ReassemblerView, keep: u32, need: nat, now: u64)
    requires
        s.pending.dom().finite(),
    ensures
        s.reserve(keep, need, now).0.conns == s.conns,
    decreases s.pending.dom().len(),
{
    if s.used() + need > MAX_PENDING_BYTES && exists|cid: u32| s.is_oldest(keep, cid) {
        lemma_reserve_keeps_conns(s.evict(s.oldest(keep), now).0, keep, need, now);
    }
}

} // verus!
