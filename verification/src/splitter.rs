//! The near end of the tunnels: client connections in, frames out.

use crate::addr::{ip, parse_ip, IpAddress, SocketAddress};
use crate::buf::bytes_content;
use crate::clock::{elapsed, elapsed_secs, span, span_secs, SECOND};
use crate::frame::{flagged, Frame, FrameView, FLAG_DATA, FLAG_FIN, FLAG_RST, FLAG_SYN};
use crate::reassembler::{arrived, frame_views, lemma_arrived_pushes, pushes};
use crate::reorder::{
    arrives, contents, cut_from, entry_cap, fresh, law_delivers_everything, law_delivers_in_order,
    overflows, run, PushResult, ReorderBuf, ReorderView,
};
use crate::socks5::TargetAddr;
use crate::sums::{lemma_map_values_insert, lemma_map_values_remove, lemma_push_contains};
use crate::tables::{
    clients, clients_contains, clients_insert, clients_keys, clients_len, clients_new,
    clients_remove, stamps, stamps_contains, stamps_insert, stamps_len, stamps_new, sweep_stamps,
};
use bytes::Bytes;
use dashmap::DashMap;
use vstd::prelude::*;

verus! {

/// How long the id of a closed connection is not used again.
pub const TIME_WAIT_TTL: u64 = 60 * SECOND;

/// How many seconds a TCP connection may be idle.
pub const TCP_IDLE_TIMEOUT: u64 = 300;

/// How many seconds a UDP association may be idle.
pub const UDP_IDLE_TIMEOUT: u64 = 60;

/// How many seconds a connection whose response is complete may be idle.
pub const FIN_COMPLETE_IDLE_SECS: u64 = 30;

/// How many seconds a connection without a handler may be idle after its FIN.
pub const ORPHAN_IDLE_SECS: u64 = 30;

/// How long a closing connection waits for frames below the number in a FIN.
pub const CLOSE_GRACE_MAX: u64 = 15 * SECOND;

/// How long a closing connection that has seen no FIN may be silent.
pub const CLOSE_QUIET_TIMEOUT: u64 = 60 * SECOND;

/// Most connections, counting those in the SOCKS5 handshake.
pub const MAX_CONCURRENT_CONNS: usize = 4096;

/// Most ids that are drawn before giving up.
pub const MAX_ID_DRAWS: usize = 1024;

/// How often a datagram is offered to the tunnels before it is dropped.
pub const DATAGRAM_ATTEMPTS: usize = 3;

/// What a splitter runs with.
pub struct SplitterConfig {
    pub listen_addr: SocketAddress,
    pub tunnels: Vec<TunnelEndpoint>,
    /// How many bytes to read from a client at once.
    pub chunk_size: usize,
    /// How long a frame may wait for a tunnel that takes it.
    pub data_send_timeout_secs: u64,
    /// How often to sweep.
    pub heartbeat_secs: u64,
    /// Byte budget of each connection's reorder window.
    pub reorder_window_bytes: usize,
}

/// One end of a tunnel that is to be set up.
pub struct TunnelEndpoint {
    /// The SOCKS5 proxy to connect through.
    pub proxy: SocketAddress,
    /// The host that the reassembler listens on.
    pub target: String,
    /// The port that the reassembler listens on for this tunnel.
    pub port: u16,
}

/// One client connection.
pub struct VirtConn {
    /// Tells this connection apart from another one under the same id.
    pub token: u64,
    pub reorder: ReorderBuf,
    /// The other end has sent all it will send.
    pub fin_received: bool,
    /// The number after the last one it sent.
    pub fin_seq: u64,
    /// The client has closed, and its handler waits for the rest of the response.
    pub grace_waiting: bool,
    /// A handler looks after the client.
    pub handler_alive: bool,
    /// A UDP association: datagrams, without order or end.
    pub is_udp: bool,
    pub created_at: u64,
    pub last_active: u64,
    pub bytes_sent: u64,
    pub bytes_recv: u64,
    pub frames_sent: u64,
    pub frames_recv: u64,
}

/// What a connection has carried so far, and since when.
#[derive(Debug, Clone, Copy, PartialEq, Eq, Structural)]
pub struct Traffic {
    pub bytes_sent: u64,
    pub bytes_recv: u64,
    pub frames_sent: u64,
    pub frames_recv: u64,
    pub created_at: u64,
}

/// A [`VirtConn`] as mathematical values.
#[verifier::ext_equal]
pub struct ClientView {
    pub token: u64,
    pub reorder: ReorderView,
    pub fin_received: bool,
    pub fin_seq: u64,
    pub grace_waiting: bool,
    pub handler_alive: bool,
    pub is_udp: bool,
    pub created_at: u64,
    pub last_active: u64,
    pub bytes_sent: u64,
    pub bytes_recv: u64,
    pub frames_sent: u64,
    pub frames_recv: u64,
}

impl View for VirtConn {
    type V = ClientView;

    open spec fn view(&self) -> ClientView {
        ClientView {
            token: self.token,
            reorder: self.reorder@,
            fin_received: self.fin_received,
            fin_seq: self.fin_seq,
            grace_waiting: self.grace_waiting,
            handler_alive: self.handler_alive,
            is_udp: self.is_udp,
            created_at: self.created_at,
            last_active: self.last_active,
            bytes_sent: self.bytes_sent,
            bytes_recv: self.bytes_recv,
            frames_sent: self.frames_sent,
            frames_recv: self.frames_recv,
        }
    }
}

impl ClientView {
    /// A connection that has just been opened.
    pub open spec fn new(token: u64, window: nat, is_udp: bool, now: u64) -> ClientView {
        ClientView {
            token,
            reorder: fresh(window, entry_cap(window)),
            fin_received: false,
            fin_seq: 0,
            grace_waiting: false,
            handler_alive: true,
            is_udp,
            created_at: now,
            last_active: now,
            bytes_sent: 0,
            bytes_recv: 0,
            frames_sent: 0,
            frames_recv: 0,
        }
    }

    /// A frame with `len` payload bytes came from the other end.
    pub open spec fn received(self, len: nat, now: u64) -> ClientView {
        ClientView {
            bytes_recv: self.bytes_recv.wrapping_add(len as u64),
            frames_recv: self.frames_recv.wrapping_add(1),
            last_active: now,
            ..self
        }
    }

    /// A frame with `len` payload bytes went to the other end.
    pub open spec fn sent(self, len: nat, now: u64) -> ClientView {
        ClientView {
            bytes_sent: self.bytes_sent.wrapping_add(len as u64),
            frames_sent: self.frames_sent.wrapping_add(1),
            last_active: now,
            ..self
        }
    }

    /// What the connection has carried so far.
    pub open spec fn traffic(self) -> Traffic {
        Traffic {
            bytes_sent: self.bytes_sent,
            bytes_recv: self.bytes_recv,
            frames_sent: self.frames_sent,
            frames_recv: self.frames_recv,
            created_at: self.created_at,
        }
    }

    /// Everything below the number in the FIN has been delivered.
    pub open spec fn is_complete(self) -> bool {
        self.reorder.expected >= self.fin_seq
    }

    /// The connection is to be swept: nobody looks after it, or it has been silent
    /// for too long. While its handler waits for the rest of a response that has
    /// ended, it is left alone.
    pub open spec fn is_expired(self, now: u64) -> bool {
        let idle = span_secs(now, self.last_active);
        if !self.handler_alive {
            true
        } else if self.fin_received {
            !self.grace_waiting && fin_sweep(self.is_complete(), idle, true)
        } else {
            idle > (if self.is_udp {
                UDP_IDLE_TIMEOUT
            } else {
                TCP_IDLE_TIMEOUT
            })
        }
    }
}

/// Whether a connection whose other end has ended is to be swept: silent past the
/// idle limit (a short one, without a handler), or complete and silent for a while.
pub open spec fn fin_sweep(complete: bool, idle_secs: nat, handler_alive: bool) -> bool {
    ||| idle_secs > (if handler_alive {
        TCP_IDLE_TIMEOUT
    } else {
        ORPHAN_IDLE_SECS
    })
    ||| complete && idle_secs > FIN_COMPLETE_IDLE_SECS
}

/// Decides whether a connection whose other end has sent its FIN is swept. A
/// complete response alone is not enough: the client may go on sending.
pub fn fin_sweep_decision(complete: bool, fin_idle_secs: u64, handler_alive: bool) -> (r: bool)
    ensures
        r == fin_sweep(complete, fin_idle_secs as nat, handler_alive),
{
    let limit: u64 = if handler_alive {
        TCP_IDLE_TIMEOUT
    } else {
        ORPHAN_IDLE_SECS
    };
    if fin_idle_secs > limit {
        return true;
    }
    complete && fin_idle_secs > FIN_COMPLETE_IDLE_SECS
}

impl VirtConn {
    /// A connection that has just been opened, whose window holds `window` bytes.
    pub fn new(token: u64, window: usize, is_udp: bool, now: u64) -> (r: Self)
        ensures
            r.reorder.wf(),
            r@ == ClientView::new(token, window as nat, is_udp, now),
    {
        VirtConn {
            token,
            reorder: ReorderBuf::with_limit(window),
            fin_received: false,
            fin_seq: 0,
            grace_waiting: false,
            handler_alive: true,
            is_udp,
            created_at: now,
            last_active: now,
            bytes_sent: 0,
            bytes_recv: 0,
            frames_sent: 0,
            frames_recv: 0,
        }
    }

    /// Takes data in and returns what is now in order for the client.
    pub fn on_frame(&mut self, seq: u64, payload: Bytes) -> (r: PushResult)
        requires
            old(self).reorder.wf(),
        ensures
            final(self).reorder.wf(),
            ({
                let (w, pushed) = old(self)@.reorder.push(seq, bytes_content(payload));
                &&& final(self)@ == (ClientView { reorder: w, ..old(self)@ })
                &&& r@ == pushed
            }),
    {
        self.reorder.push(seq, payload)
    }

    /// Counts a frame from the other end.
    pub fn count_received(&mut self, len: u64, now: u64)
        ensures
            final(self)@ == old(self)@.received(len as nat, now),
            final(self).reorder == old(self).reorder,
    {
        self.bytes_recv = self.bytes_recv.wrapping_add(len);
        self.frames_recv = self.frames_recv.wrapping_add(1);
        self.last_active = now;
    }

    /// Counts a frame to the other end.
    pub fn count_sent(&mut self, len: u64, now: u64)
        ensures
            final(self)@ == old(self)@.sent(len as nat, now),
            final(self).reorder == old(self).reorder,
    {
        self.bytes_sent = self.bytes_sent.wrapping_add(len);
        self.frames_sent = self.frames_sent.wrapping_add(1);
        self.last_active = now;
    }

    /// Whether the connection is to be swept.
    pub fn is_expired(&self, now: u64) -> (r: bool)
        ensures
            r == self@.is_expired(now),
    {
        let idle: u64 = elapsed_secs(now, self.last_active);
        if !self.handler_alive {
            return true;
        }
        if self.fin_received {
            if self.grace_waiting {
                return false;
            }
            let complete: bool = self.reorder.is_complete_through(self.fin_seq);
            return fin_sweep_decision(complete, idle, true);
        }
        let limit: u64 = if self.is_udp {
            UDP_IDLE_TIMEOUT
        } else {
            TCP_IDLE_TIMEOUT
        };
        idle > limit
    }
}

/// What the caller has to do. The actions of one call are carried out in order.
#[derive(Debug)]
pub enum Action {
    /// Hand the frame to the tunnels.
    Send(Frame),
    /// Queue the chunks for the client, in order, then report `delivered` before
    /// anything else happens.
    Deliver { cid: u32, token: u64, chunks: Vec<Bytes>, count: u64 },
    /// Tell the handler that the other end has ended its direction.
    Wake { cid: u32, token: u64 },
    /// Tell the handler that the connection is gone: reset, or else swept.
    Stop { cid: u32, token: u64, reset: bool },
}

/// An [`Action`] as mathematical values.
#[verifier::ext_equal]
pub enum ActionView {
    Send(FrameView),
    Deliver { cid: u32, token: u64, chunks: Seq<Seq<u8>>, count: u64 },
    Wake { cid: u32, token: u64 },
    Stop { cid: u32, token: u64, reset: bool },
}

impl View for Action {
    type V = ActionView;

    open spec fn view(&self) -> ActionView {
        match *self {
            Action::Send(f) => ActionView::Send(f@),
            Action::Deliver { cid, token, chunks, count } => ActionView::Deliver {
                cid,
                token,
                chunks: contents(chunks@),
                count,
            },
            Action::Wake { cid, token } => ActionView::Wake { cid, token },
            Action::Stop { cid, token, reset } => ActionView::Stop { cid, token, reset },
        }
    }
}

/// The views of a list of actions.
pub open spec fn action_views(actions: Seq<Action>) -> Seq<ActionView> {
    actions.map_values(|a: Action| a@)
}

/// The state of a splitter as mathematical values.
#[verifier::ext_equal]
pub struct SplitterView {
    /// Connections that are open.
    pub conns: Map<u32, ClientView>,
    /// When each id that is not to be used again yet was given up.
    pub time_wait: Map<u32, u64>,
    /// Connections that were reset, since the count was last taken.
    pub resets: u64,
    /// Byte budget of each connection's reorder window.
    pub window: nat,
    /// The token of the next connection.
    pub next_token: u64,
}

impl SplitterView {
    pub open spec fn inv(self) -> bool {
        &&& self.conns.dom().finite()
        &&& self.time_wait.dom().finite()
        &&& forall|cid: u32| #[trigger] self.conns.contains_key(cid) ==> self.conns[cid].reorder.inv()
    }

    /// The state with a connection set to `c`.
    pub open spec fn with_conn(self, cid: u32, c: ClientView) -> SplitterView {
        SplitterView { conns: self.conns.insert(cid, c), ..self }
    }

    /// The connection that an event speaks of is still there.
    pub open spec fn is_current(self, cid: u32, token: u64) -> bool {
        self.conns.contains_key(cid) && self.conns[cid].token == token
    }

    /// An id may be given to a new connection.
    pub open spec fn is_free(self, cid: u32) -> bool {
        cid != 0 && !self.conns.contains_key(cid) && !self.time_wait.contains_key(cid)
    }

    /// A connection is given up in both directions: it is forgotten, its id is not
    /// used again for a while, its handler stops and the other end is told.
    pub open spec fn reset(self, cid: u32, now: u64) -> (SplitterView, Seq<ActionView>) {
        (
            SplitterView {
                conns: self.conns.remove(cid),
                time_wait: self.time_wait.insert(cid, now),
                resets: self.resets.wrapping_add(1),
                ..self
            },
            self.stop(cid, true).push(ActionView::Send(FrameView::rst(cid))),
        )
    }

    /// Tells the handler of a connection, if there is one, that it is gone.
    pub open spec fn stop(self, cid: u32, reset: bool) -> Seq<ActionView> {
        if self.conns.contains_key(cid) {
            seq![ActionView::Stop { cid, token: self.conns[cid].token, reset }]
        } else {
            Seq::empty()
        }
    }

    /// Data arrives. On a UDP association it goes to the client as it is; on a TCP
    /// connection it goes through the reorder window. Where there is no such
    /// connection the other end is told.
    pub open spec fn on_data(self, f: FrameView, now: u64) -> (SplitterView, Seq<ActionView>) {
        let cid = f.conn_id;
        if self.conns.contains_key(cid) {
            let c = self.conns[cid];
            let count = f.payload.len() as u64;
            if c.is_udp {
                (
                    self,
                    seq![
                        ActionView::Deliver {
                            cid,
                            token: c.token,
                            chunks: seq![f.payload],
                            count,
                        },
                    ],
                )
            } else {
                let (w, r) = c.reorder.push(f.seq, f.payload);
                if r.accepted {
                    (
                        self.with_conn(cid, ClientView { reorder: w, ..c }),
                        seq![ActionView::Deliver { cid, token: c.token, chunks: r.ready, count }],
                    )
                } else if r.overflow {
                    self.reset(cid, now)
                } else {
                    (self, Seq::empty())
                }
            }
        } else {
            (self, seq![ActionView::Send(FrameView::rst(cid))])
        }
    }

    /// The other end ends its direction. A UDP association has no such thing. The
    /// connection stays: the client may go on sending.
    pub open spec fn on_fin(self, f: FrameView) -> (SplitterView, Seq<ActionView>) {
        let cid = f.conn_id;
        if self.conns.contains_key(cid) && !self.conns[cid].is_udp {
            let c = self.conns[cid];
            (
                self.with_conn(cid, ClientView { fin_received: true, fin_seq: f.seq, ..c }),
                seq![ActionView::Wake { cid, token: c.token }],
            )
        } else {
            (self, Seq::empty())
        }
    }

    /// A frame arrives. Of several flags the first in the order DATA, FIN, RST
    /// counts; a frame without any of them is ignored.
    pub open spec fn on_frame(self, f: FrameView, now: u64) -> (SplitterView, Seq<ActionView>) {
        if flagged(f.flags, FLAG_DATA) {
            self.on_data(f, now)
        } else if flagged(f.flags, FLAG_FIN) {
            self.on_fin(f)
        } else if flagged(f.flags, FLAG_RST) {
            self.reset(f.conn_id, now)
        } else {
            (self, Seq::empty())
        }
    }

    /// Chunks were queued for the client, all of them or (`ok` is false) not. A
    /// datagram that is refused is lost; on a TCP connection a refusal breaks the
    /// stream.
    pub open spec fn on_delivered(self, cid: u32, token: u64, count: u64, ok: bool, now: u64) -> (
        SplitterView,
        Seq<ActionView>,
    ) {
        if !self.is_current(cid, token) {
            (self, Seq::empty())
        } else {
            let c = self.conns[cid];
            if ok {
                (self.with_conn(cid, c.received(count as nat, now)), Seq::empty())
            } else if c.is_udp {
                (self.with_conn(cid, ClientView { last_active: now, ..c }), Seq::empty())
            } else {
                self.reset(cid, now)
            }
        }
    }

    /// Frames were lost on a dying tunnel, the first one first. Control frames are
    /// sent again; a connection that lost data is reset.
    pub open spec fn on_lost(self, lost: Seq<FrameView>, now: u64) -> (SplitterView, Seq<ActionView>)
        decreases lost.len(),
    {
        if lost.len() == 0 {
            (self, Seq::empty())
        } else {
            let (s, done) = self.on_lost(lost.drop_last(), now);
            let f = lost.last();
            if flagged(f.flags, FLAG_SYN | FLAG_FIN | FLAG_RST) {
                (s, done.push(ActionView::Send(f)))
            } else if s.conns.contains_key(f.conn_id) {
                let (t, more) = s.reset(f.conn_id, now);
                (t, done + more)
            } else {
                (s, done)
            }
        }
    }

    /// A new connection under an id.
    pub open spec fn open(self, cid: u32, is_udp: bool, now: u64) -> SplitterView {
        SplitterView {
            next_token: self.next_token.wrapping_add(1),
            ..self.with_conn(cid, ClientView::new(self.next_token, self.window, is_udp, now))
        }
    }

    /// The state without a connection, if it is still the one that is meant.
    pub open spec fn without(self, cid: u32, token: u64) -> SplitterView {
        if self.is_current(cid, token) {
            SplitterView { conns: self.conns.remove(cid), ..self }
        } else {
            self
        }
    }

    /// A handler has finished with its connection. The id is not used again for a
    /// while; the other end of a UDP association is told.
    pub open spec fn closed(self, cid: u32, token: u64, is_udp: bool, now: u64) -> (
        SplitterView,
        Seq<ActionView>,
    ) {
        (
            SplitterView {
                time_wait: self.time_wait.insert(cid, now),
                ..self.without(cid, token)
            },
            if is_udp {
                seq![ActionView::Send(FrameView::rst(cid))]
            } else {
                Seq::empty()
            },
        )
    }

    /// The state after a connection was changed by `f`, if it is still the one that
    /// is meant.
    pub open spec fn updated(
        self,
        cid: u32,
        token: u64,
        f: spec_fn(ClientView) -> ClientView,
    ) -> SplitterView {
        if self.is_current(cid, token) {
            self.with_conn(cid, f(self.conns[cid]))
        } else {
            self
        }
    }

    /// Whether a closing connection still waits for the rest of a response: it ends
    /// when the connection is gone, when everything below the number in the FIN has
    /// been delivered, some time after a FIN that leaves a gap, or after a silence
    /// without a FIN. A wait remembers when it first saw the FIN.
    pub open spec fn grace(self, cid: u32, token: u64, fin_seen_at: Option<u64>, now: u64) -> Grace {
        if !self.is_current(cid, token) {
            Grace::Over
        } else {
            let c = self.conns[cid];
            if c.fin_received {
                let seen = if fin_seen_at is Some {
                    fin_seen_at->Some_0
                } else {
                    now
                };
                if c.is_complete() || span(now, seen) >= CLOSE_GRACE_MAX {
                    Grace::Over
                } else {
                    Grace::Wait { fin_seen_at: Some(seen) }
                }
            } else if span(now, c.last_active) >= CLOSE_QUIET_TIMEOUT {
                Grace::Over
            } else {
                Grace::Wait { fin_seen_at }
            }
        }
    }

    /// A connection is to be swept.
    pub open spec fn is_expired(self, cid: u32, now: u64) -> bool {
        self.conns.contains_key(cid) && self.conns[cid].is_expired(now)
    }

    /// The state after everything that is out of date has been removed: ids that may
    /// be used again, and expired connections, whose ids may not.
    pub open spec fn swept(self, now: u64) -> SplitterView {
        SplitterView {
            conns: self.conns.restrict(Set::new(|cid: u32| !self.is_expired(cid, now))),
            time_wait: Map::new(
                |cid: u32|
                    self.is_expired(cid, now) || (self.time_wait.contains_key(cid) && span(
                        now,
                        self.time_wait[cid],
                    ) < TIME_WAIT_TTL),
                |cid: u32|
                    if self.is_expired(cid, now) {
                        now
                    } else {
                        self.time_wait[cid]
                    },
            ),
            ..self
        }
    }

    /// What is done about a list of expired connections.
    pub open spec fn expired_actions(self, cids: Seq<u32>) -> Seq<ActionView>
        decreases cids.len(),
    {
        if cids.len() == 0 {
            Seq::empty()
        } else {
            let cid = cids.last();
            (self.expired_actions(cids.drop_last()) + (if self.conns[cid].handler_alive {
                self.stop(cid, false)
            } else {
                Seq::empty()
            })).push(ActionView::Send(FrameView::rst(cid)))
        }
    }

    /// A list holds every expired connection once and nothing else.
    pub open spec fn lists_expired(self, cids: Seq<u32>, now: u64) -> bool {
        cids.no_duplicates() && forall|cid: u32|
            cids.contains(cid) <==> #[trigger] self.is_expired(cid, now)
    }

    /// Actions that a sweep may ask for: one set for each expired connection, in some
    /// order.
    pub open spec fn sweeps(self, actions: Seq<ActionView>, now: u64) -> bool {
        exists|cids: Seq<u32>|
            self.lists_expired(cids, now) && actions == #[trigger] self.expired_actions(cids)
    }
}

/// What a closing connection does next.
#[derive(Debug, Clone, Copy, PartialEq, Eq, Structural)]
pub enum Grace {
    /// Ask again a little later.
    Wait { fin_seen_at: Option<u64> },
    /// The wait is over.
    Over,
}

/// What becomes of an id that was drawn for a new connection.
#[derive(Debug, Clone, Copy, PartialEq, Eq, Structural)]
pub enum Draw {
    /// The id is free: the connection gets it.
    Take(u32),
    /// The id is not free: draw another one.
    Again,
    /// The id is not free, and it was the last draw.
    GiveUp,
}

/// What a connection's value is in a view.
pub open spec fn client_view() -> spec_fn(VirtConn) -> ClientView {
    |c: VirtConn| c@
}

/// The state of a splitter, and its rules.
///
/// Frames, outcomes of outside work and the time go in; actions come out.
pub struct Splitter {
    conns: DashMap<u32, VirtConn>,
    time_wait: DashMap<u32, u64>,
    resets: u64,
    window: usize,
    next_token: u64,
}

impl View for Splitter {
    type V = SplitterView;

    closed spec fn view(&self) -> SplitterView {
        SplitterView {
            conns: clients(self.conns).map_values(client_view()),
            time_wait: stamps(self.time_wait),
            resets: self.resets,
            window: self.window as nat,
            next_token: self.next_token,
        }
    }
}

/// `rand::random` draws a number. Nothing is known of it.
#[verifier::external_body]
fn random_u32() -> (r: u32) {
    rand::random()
}

/// Adds an action to a list.
fn emit(out: &mut Vec<Action>, a: Action)
    ensures
        action_views(final(out)@) == action_views(old(out)@).push(a@),
{
    out.push(a);
    assert(action_views(out@) =~= action_views(old(out)@).push(a@));
}

impl Splitter {
    /// The view's invariant holds, and every connection's window is sound.
    pub closed spec fn wf(&self) -> bool {
        &&& self@.inv()
        &&& forall|cid: u32| #[trigger] clients(self.conns).contains_key(cid)
            ==> clients(self.conns)[cid].reorder.wf()
    }

    /// A splitter without connections, whose reorder windows hold `window` bytes.
    pub fn new(window: usize) -> (r: Self)
        ensures
            r.wf(),
            r@ == (SplitterView {
                conns: Map::empty(),
                time_wait: Map::empty(),
                resets: 0,
                window: window as nat,
                next_token: 0,
            }),
    {
        let r = Splitter {
            conns: clients_new(),
            time_wait: stamps_new(),
            resets: 0,
            window,
            next_token: 0,
        };
        assert(r@.conns =~= Map::<u32, ClientView>::empty());
        r
    }

    /// Takes a connection out of the table.
    fn take_conn(&mut self, cid: u32) -> (r: Option<VirtConn>)
        requires
            old(self).wf(),
        ensures
            final(self).wf(),
            final(self)@ == (SplitterView { conns: old(self)@.conns.remove(cid), ..old(self)@ }),
            r is Some <==> old(self)@.conns.contains_key(cid),
            r is Some ==> r->Some_0@ == old(self)@.conns[cid] && r->Some_0.reorder.wf(),
            r is None ==> final(self)@ == old(self)@,
    {
        let ghost held = clients(self.conns);
        proof {
            lemma_map_values_remove(held, cid, client_view());
            assert(held.contains_key(cid) <==> self@.conns.contains_key(cid));
            assert(!held.contains_key(cid) ==> self@.conns.remove(cid) =~= self@.conns);
        }
        clients_remove(&mut self.conns, cid)
    }

    /// Sets a connection in the table.
    fn put_conn(&mut self, cid: u32, conn: VirtConn)
        requires
            old(self).wf(),
            conn.reorder.wf(),
        ensures
            final(self).wf(),
            final(self)@ == old(self)@.with_conn(cid, conn@),
    {
        proof {
            lemma_map_values_insert(clients(self.conns), cid, conn, client_view());
            conn.reorder.lemma_wf_inv();
        }
        clients_insert(&mut self.conns, cid, conn);
    }

    /// Whether an id may be given to a new connection: not 0, not in use and not in
    /// use a moment ago.
    pub fn conn_id_is_free(&self, id: u32) -> (r: bool)
        ensures
            r == self@.is_free(id),
    {
        id != 0 && !clients_contains(&self.conns, id) && !stamps_contains(&self.time_wait, id)
    }

    /// What becomes of an id that was drawn for a new connection, after so many draws
    /// before it: a free one is taken, and another one is drawn until all draws are used
    /// up.
    pub fn take_draw(&self, drawn: usize, id: u32) -> (r: Draw)
        requires
            drawn < MAX_ID_DRAWS,
        ensures
            r == (if self@.is_free(id) {
                Draw::Take(id)
            } else if drawn + 1 == MAX_ID_DRAWS {
                Draw::GiveUp
            } else {
                Draw::Again
            }),
    {
        if self.conn_id_is_free(id) {
            Draw::Take(id)
        } else if drawn + 1 == MAX_ID_DRAWS {
            Draw::GiveUp
        } else {
            Draw::Again
        }
    }

    /// Draws an id for a new connection, or gives up when too many draws were taken.
    /// Which ids are drawn, and so whether one is found, is up to chance; `take_draw`
    /// says what is done about each, and what is returned is free.
    pub fn alloc_conn_id(&self) -> (r: Option<u32>)
        ensures
            r is Some ==> self@.is_free(r->Some_0),
    {
        let mut drawn: usize = 0;
        loop
            invariant
                drawn < MAX_ID_DRAWS,
            decreases MAX_ID_DRAWS - drawn,
        {
            match self.take_draw(drawn, random_u32()) {
                Draw::Take(id) => {
                    return Some(id);
                },
                Draw::GiveUp => {
                    return None;
                },
                Draw::Again => {
                    drawn = drawn + 1;
                },
            }
        }
    }

    /// Gives a connection up and tells the other end.
    pub fn reset_conn(&mut self, cid: u32, now: u64) -> (r: Vec<Action>)
        requires
            old(self).wf(),
        ensures
            final(self).wf(),
            (final(self)@, action_views(r@)) == old(self)@.reset(cid, now),
    {
        let mut out: Vec<Action> = Vec::new();
        assert(action_views(out@) =~= Seq::empty());
        self.reset_into(cid, now, &mut out);
        assert(action_views(out@) =~= old(self)@.reset(cid, now).1);
        out
    }

    fn reset_into(&mut self, cid: u32, now: u64, out: &mut Vec<Action>)
        requires
            old(self).wf(),
        ensures
            final(self).wf(),
            final(self)@ == old(self)@.reset(cid, now).0,
            action_views(final(out)@) == action_views(old(out)@) + old(self)@.reset(cid, now).1,
    {
        let ghost before = self@;
        stamps_insert(&mut self.time_wait, cid, now);
        match self.take_conn(cid) {
            Some(conn) => {
                emit(out, Action::Stop { cid, token: conn.token, reset: true });
            },
            None => {},
        }
        emit(out, Action::Send(Frame::rst(cid)));
        self.resets = self.resets.wrapping_add(1);
        proof {
            assert(!before.conns.contains_key(cid) ==> before.conns.remove(cid) =~= before.conns);
            assert(self@ =~= before.reset(cid, now).0);
            assert(action_views(out@) =~= action_views(old(out)@) + before.reset(cid, now).1);
        }
    }

    /// Takes a frame from the other end in and says what to do about it.
    pub fn handle_inbound_frame(&mut self, frame: Frame, now: u64) -> (r: Vec<Action>)
        requires
            old(self).wf(),
        ensures
            final(self).wf(),
            (final(self)@, action_views(r@)) == old(self)@.on_frame(frame@, now),
    {
        let ghost before = self@;
        let cid: u32 = frame.conn_id;
        let mut out: Vec<Action> = Vec::new();
        assert(action_views(out@) =~= Seq::empty());
        if frame.flags & FLAG_DATA != 0 {
            let count: u64 = frame.payload.len() as u64;
            match self.take_conn(cid) {
                Some(mut conn) => {
                    let token: u64 = conn.token;
                    if conn.is_udp {
                        let mut chunks: Vec<Bytes> = Vec::new();
                        chunks.push(frame.payload);
                        assert(contents(chunks@) =~= seq![frame@.payload]);
                        self.put_conn(cid, conn);
                        emit(&mut out, Action::Deliver { cid, token, chunks, count });
                        assert(self@ =~= before);
                        assert(action_views(out@) =~= before.on_frame(frame@, now).1);
                        return out;
                    }
                    let pushed = conn.on_frame(frame.seq, frame.payload);
                    let ghost c = conn@;
                    self.put_conn(cid, conn);
                    assert(self@ =~= before.with_conn(cid, c));
                    if pushed.accepted {
                        emit(&mut out, Action::Deliver { cid, token, chunks: pushed.ready, count });
                        assert(action_views(out@) =~= before.on_frame(frame@, now).1);
                    } else if pushed.overflow {
                        assert(self@ =~= before);
                        return self.reset_conn(cid, now);
                    } else {
                        assert(self@ =~= before);
                    }
                },
                None => {
                    emit(&mut out, Action::Send(Frame::rst(cid)));
                    assert(action_views(out@) =~= seq![ActionView::Send(FrameView::rst(cid))]);
                },
            }
            return out;
        }
        if frame.flags & FLAG_FIN != 0 {
            match self.take_conn(cid) {
                Some(mut conn) => {
                    let token: u64 = conn.token;
                    let is_udp: bool = conn.is_udp;
                    if !is_udp {
                        conn.fin_received = true;
                        conn.fin_seq = frame.seq;
                        emit(&mut out, Action::Wake { cid, token });
                        assert(action_views(out@) =~= seq![ActionView::Wake { cid, token }]);
                    }
                    let ghost c = conn@;
                    self.put_conn(cid, conn);
                    assert(self@ =~= before.with_conn(cid, c));
                    assert(c == before.conns[cid] ==> before.with_conn(cid, c) =~= before);
                },
                None => {},
            }
            return out;
        }
        if frame.flags & FLAG_RST != 0 {
            return self.reset_conn(cid, now);
        }
        out
    }

    /// Reports that the chunks of a `Deliver` were queued (`ok`) or refused.
    pub fn delivered(&mut self, cid: u32, token: u64, count: u64, ok: bool, now: u64) -> (r: Vec<
        Action,
    >)
        requires
            old(self).wf(),
        ensures
            final(self).wf(),
            (final(self)@, action_views(r@)) == old(self)@.on_delivered(cid, token, count, ok, now),
    {
        let ghost before = self@;
        let out: Vec<Action> = Vec::new();
        assert(action_views(out@) =~= Seq::empty());
        match self.take_conn(cid) {
            Some(mut conn) => {
                if conn.token == token {
                    if ok {
                        conn.count_received(count, now);
                    } else if conn.is_udp {
                        conn.last_active = now;
                    } else {
                        self.put_conn(cid, conn);
                        assert(self@ =~= before);
                        return self.reset_conn(cid, now);
                    }
                }
                let ghost c = conn@;
                self.put_conn(cid, conn);
                assert(self@ =~= before.with_conn(cid, c));
                assert(c == before.conns[cid] ==> before.with_conn(cid, c) =~= before);
            },
            None => {},
        }
        out
    }

    /// Makes up for frames that were lost on a dying tunnel.
    pub fn recover_lost(&mut self, lost: Vec<Frame>, now: u64) -> (r: Vec<Action>)
        requires
            old(self).wf(),
        ensures
            final(self).wf(),
            (final(self)@, action_views(r@)) == old(self)@.on_lost(frame_views(lost@), now),
    {
        let ghost start = self@;
        let ghost all = frame_views(lost@);
        let mut out: Vec<Action> = Vec::new();
        let mut i: usize = 0;
        assert(action_views(out@) =~= Seq::empty());
        assert(all.take(0) =~= Seq::empty());
        while i < lost.len()
            invariant
                i <= lost@.len(),
                self.wf(),
                all == frame_views(lost@),
                (self@, action_views(out@)) == start.on_lost(all.take(i as int), now),
            decreases lost.len() - i,
        {
            let f = &lost[i];
            proof {
                assert(all.take(i + 1).drop_last() =~= all.take(i as int));
                assert(all.take(i + 1).last() == f@);
            }
            if f.flags & (FLAG_SYN | FLAG_FIN | FLAG_RST) != 0 {
                emit(&mut out, Action::Send(f.clone()));
            } else if clients_contains(&self.conns, f.conn_id) {
                self.reset_into(f.conn_id, now, &mut out);
            }
            i = i + 1;
        }
        assert(all.take(i as int) =~= all);
        out
    }

    /// Opens a connection under an id and returns its token.
    pub fn open_conn(&mut self, cid: u32, is_udp: bool, now: u64) -> (r: u64)
        requires
            old(self).wf(),
        ensures
            final(self).wf(),
            r == old(self)@.next_token,
            final(self)@ == old(self)@.open(cid, is_udp, now),
    {
        let token: u64 = self.next_token;
        self.next_token = token.wrapping_add(1);
        let conn = VirtConn::new(token, self.window, is_udp, now);
        self.put_conn(cid, conn);
        token
    }

    /// Forgets a connection whose SYN could not be sent.
    pub fn abort_conn(&mut self, cid: u32, token: u64)
        requires
            old(self).wf(),
        ensures
            final(self).wf(),
            final(self)@ == old(self)@.without(cid, token),
    {
        let ghost before = self@;
        match self.take_conn(cid) {
            Some(conn) => {
                if conn.token != token {
                    self.put_conn(cid, conn);
                    assert(self@ =~= before);
                }
            },
            None => {},
        }
    }

    /// Reports that a handler has finished with its connection.
    pub fn close_conn(&mut self, cid: u32, token: u64, is_udp: bool, now: u64) -> (r: Vec<Action>)
        requires
            old(self).wf(),
        ensures
            final(self).wf(),
            (final(self)@, action_views(r@)) == old(self)@.closed(cid, token, is_udp, now),
    {
        let mut out: Vec<Action> = Vec::new();
        assert(action_views(out@) =~= Seq::empty());
        self.abort_conn(cid, token);
        stamps_insert(&mut self.time_wait, cid, now);
        assert(self@ =~= old(self)@.closed(cid, token, is_udp, now).0);
        if is_udp {
            emit(&mut out, Action::Send(Frame::rst(cid)));
            assert(action_views(out@) =~= seq![ActionView::Send(FrameView::rst(cid))]);
        }
        out
    }

    /// Reports that a frame with `len` payload bytes went to the other end.
    pub fn data_sent(&mut self, cid: u32, token: u64, len: u64, now: u64)
        requires
            old(self).wf(),
        ensures
            final(self).wf(),
            final(self)@ == old(self)@.updated(
                cid,
                token,
                |c: ClientView| c.sent(len as nat, now),
            ),
    {
        let ghost before = self@;
        match self.take_conn(cid) {
            Some(mut conn) => {
                if conn.token == token {
                    conn.count_sent(len, now);
                }
                let ghost c = conn@;
                self.put_conn(cid, conn);
                assert(self@ =~= before.with_conn(cid, c));
                assert(c == before.conns[cid] ==> before.with_conn(cid, c) =~= before);
            },
            None => {},
        }
    }

    /// Reports that the client has closed and its handler waits for the rest of the
    /// response.
    pub fn begin_grace(&mut self, cid: u32, token: u64)
        requires
            old(self).wf(),
        ensures
            final(self).wf(),
            final(self)@ == old(self)@.updated(
                cid,
                token,
                |c: ClientView| ClientView { grace_waiting: true, ..c },
            ),
    {
        let ghost before = self@;
        match self.take_conn(cid) {
            Some(mut conn) => {
                if conn.token == token {
                    conn.grace_waiting = true;
                }
                let ghost c = conn@;
                self.put_conn(cid, conn);
                assert(self@ =~= before.with_conn(cid, c));
                assert(c == before.conns[cid] ==> before.with_conn(cid, c) =~= before);
            },
            None => {},
        }
    }

    /// Reports that nobody looks after a connection any more.
    pub fn handler_gone(&mut self, cid: u32, token: u64)
        requires
            old(self).wf(),
        ensures
            final(self).wf(),
            final(self)@ == old(self)@.updated(
                cid,
                token,
                |c: ClientView| ClientView { handler_alive: false, ..c },
            ),
    {
        let ghost before = self@;
        match self.take_conn(cid) {
            Some(mut conn) => {
                if conn.token == token {
                    conn.handler_alive = false;
                }
                let ghost c = conn@;
                self.put_conn(cid, conn);
                assert(self@ =~= before.with_conn(cid, c));
                assert(c == before.conns[cid] ==> before.with_conn(cid, c) =~= before);
            },
            None => {},
        }
    }

    /// What a connection has carried, if it is still the one that is meant.
    pub fn traffic(&mut self, cid: u32, token: u64) -> (r: Option<Traffic>)
        requires
            old(self).wf(),
        ensures
            final(self).wf(),
            final(self)@ == old(self)@,
            r == (if old(self)@.is_current(cid, token) {
                Some(old(self)@.conns[cid].traffic())
            } else {
                None
            }),
    {
        let ghost before = self@;
        match self.take_conn(cid) {
            Some(conn) => {
                let r: Option<Traffic> = if conn.token == token {
                    Some(
                        Traffic {
                            bytes_sent: conn.bytes_sent,
                            bytes_recv: conn.bytes_recv,
                            frames_sent: conn.frames_sent,
                            frames_recv: conn.frames_recv,
                            created_at: conn.created_at,
                        },
                    )
                } else {
                    None
                };
                self.put_conn(cid, conn);
                assert(self@ =~= before);
                r
            },
            None => None,
        }
    }

    /// Whether a closing connection still waits for the rest of a response.
    pub fn grace_step(&mut self, cid: u32, token: u64, fin_seen_at: Option<u64>, now: u64) -> (r:
        Grace)
        requires
            old(self).wf(),
        ensures
            final(self).wf(),
            final(self)@ == old(self)@,
            r == old(self)@.grace(cid, token, fin_seen_at, now),
    {
        let ghost before = self@;
        match self.take_conn(cid) {
            Some(conn) => {
                let r: Grace = if conn.token != token {
                    Grace::Over
                } else if conn.fin_received {
                    let seen: u64 = match fin_seen_at {
                        Some(t) => t,
                        None => now,
                    };
                    if conn.reorder.is_complete_through(conn.fin_seq) || elapsed(now, seen)
                        >= CLOSE_GRACE_MAX {
                        Grace::Over
                    } else {
                        Grace::Wait { fin_seen_at: Some(seen) }
                    }
                } else if elapsed(now, conn.last_active) >= CLOSE_QUIET_TIMEOUT {
                    Grace::Over
                } else {
                    Grace::Wait { fin_seen_at }
                };
                self.put_conn(cid, conn);
                assert(self@ =~= before);
                r
            },
            None => Grace::Over,
        }
    }

    /// Whether no more connections may be accepted, with `half_open` of them in the
    /// SOCKS5 handshake.
    pub fn at_capacity(&self, half_open: usize) -> (r: bool)
        requires
            self.wf(),
        ensures
            r == (self@.conns.dom().len() + half_open >= MAX_CONCURRENT_CONNS),
    {
        assert(self@.conns.dom() =~= clients(self.conns).dom());
        let open: usize = clients_len(&self.conns);
        open >= MAX_CONCURRENT_CONNS || half_open >= MAX_CONCURRENT_CONNS - open
    }

    /// Removes what is out of date and says what to do about it.
    pub fn sweep(&mut self, now: u64) -> (r: Vec<Action>)
        requires
            old(self).wf(),
        ensures
            final(self).wf(),
            final(self)@ == old(self)@.swept(now),
            old(self)@.sweeps(action_views(r@), now),
    {
        let ghost before = self@;
        sweep_stamps(&mut self.time_wait, now, TIME_WAIT_TTL);
        let ghost start = self@;
        let ghost mut done: Seq<u32> = Seq::empty();
        let mut out: Vec<Action> = Vec::new();
        let keys = clients_keys(&self.conns);
        let mut i: usize = 0;
        assert(action_views(out@) =~= before.expired_actions(done));
        while i < keys.len()
            invariant
                i <= keys@.len(),
                self.wf(),
                start.conns == before.conns,
                keys@.no_duplicates(),
                forall|k: u32| keys@.contains(k) <==> #[trigger] before.conns.contains_key(k),
                done.no_duplicates(),
                forall|k: u32| #[trigger]
                    done.contains(k) <==> before.is_expired(k, now) && keys@.take(
                        i as int,
                    ).contains(k),
                action_views(out@) == before.expired_actions(done),
                self@ == (SplitterView {
                    conns: self@.conns,
                    time_wait: self@.time_wait,
                    ..start
                }),
                forall|k: u32| #[trigger]
                    self@.conns.contains_key(k) <==> before.conns.contains_key(k)
                        && !done.contains(k),
                forall|k: u32| #[trigger]
                    self@.conns.contains_key(k) ==> self@.conns[k] == before.conns[k],
                forall|k: u32| #[trigger]
                    self@.time_wait.contains_key(k) <==> start.time_wait.contains_key(k)
                        || done.contains(k),
                forall|k: u32| #[trigger]
                    self@.time_wait.contains_key(k) ==> self@.time_wait[k] == (if done.contains(
                        k,
                    ) {
                        now
                    } else {
                        start.time_wait[k]
                    }),
            decreases keys.len() - i,
        {
            let cid: u32 = keys[i];
            proof {
                let prefix = keys@.take(i as int);
                assert(keys@.take(i + 1) =~= prefix.push(cid));
                assert(keys@.contains(cid));
                assert(!prefix.contains(cid)) by {
                    if prefix.contains(cid) {
                        let j = prefix.index_of(cid);
                        assert(keys@[j] == keys@[i as int]);
                    }
                }
                assert(!done.contains(cid));
                lemma_push_contains(prefix, cid);
            }
            match self.take_conn(cid) {
                Some(conn) => {
                    if conn.is_expired(now) {
                        stamps_insert(&mut self.time_wait, cid, now);
                        if conn.handler_alive {
                            emit(&mut out, Action::Stop { cid, token: conn.token, reset: false });
                        }
                        emit(&mut out, Action::Send(Frame::rst(cid)));
                        proof {
                            let was = done;
                            done = done.push(cid);
                            lemma_push_contains(was, cid);
                            assert(done.drop_last() =~= was);
                            assert(before.is_expired(cid, now));
                            assert(action_views(out@) =~= before.expired_actions(done));
                        }
                    } else {
                        self.put_conn(cid, conn);
                        assert(!before.is_expired(cid, now));
                    }
                },
                None => {},
            }
            i = i + 1;
        }
        proof {
            assert(keys@.take(i as int) =~= keys@);
            assert forall|cid: u32| done.contains(cid) <==> #[trigger] before.is_expired(
                cid,
                now,
            ) by {}
            assert(before.lists_expired(done, now));
            let want = before.swept(now);
            assert(self@.conns =~= want.conns);
            assert forall|cid: u32| #[trigger] self@.time_wait.contains_key(cid)
                <==> want.time_wait.contains_key(cid) by {
                assert(start.time_wait.contains_key(cid) <==> before.time_wait.contains_key(cid)
                    && span(now, before.time_wait[cid]) < TIME_WAIT_TTL);
            }
            assert(self@.time_wait =~= want.time_wait);
            assert(self@ =~= want);
        }
        out
    }

    /// How many connections there are.
    pub fn active(&self) -> (r: usize)
        requires
            self.wf(),
        ensures
            r == self@.conns.dom().len(),
    {
        assert(self@.conns.dom() =~= clients(self.conns).dom());
        clients_len(&self.conns)
    }

    /// How many ids are not to be used again yet.
    pub fn waiting_ids(&self) -> (r: usize)
        requires
            self.wf(),
        ensures
            r == self@.time_wait.dom().len(),
    {
        stamps_len(&self.time_wait)
    }

    /// Takes the count of resets and starts it anew.
    pub fn take_resets(&mut self) -> (r: u64)
        requires
            old(self).wf(),
        ensures
            final(self).wf(),
            r == old(self)@.resets,
            final(self)@ == (SplitterView { resets: 0, ..old(self)@ }),
    {
        let r: u64 = self.resets;
        self.resets = 0;
        r
    }

    /// Whether a connection is open.
    pub fn has_conn(&self, cid: u32) -> (r: bool)
        ensures
            r == self@.conns.contains_key(cid),
    {
        clients_contains(&self.conns, cid)
    }
}

// ── Tunnels ───────────────────────────────────────────────────────────

/// How many seconds to wait before a tunnel is set up again: 3 after one that ran, and
/// twice as long after each failure in a row, up to 24.
pub open spec fn backoff(failures: nat) -> nat
    decreases failures,
{
    if failures == 0 {
        3
    } else if failures >= 3 {
        24
    } else {
        2 * backoff((failures - 1) as nat)
    }
}

/// How many seconds to wait before a tunnel is set up again, after this many failures
/// in a row.
pub fn reconnect_delay_secs(failures: u32) -> (r: u64)
    ensures
        r == backoff(failures as nat),
{
    reveal_with_fuel(backoff, 4);
    if failures == 0 {
        3
    } else if failures == 1 {
        6
    } else if failures == 2 {
        12
    } else {
        24
    }
}

// ── Closing a client connection ───────────────────────────────────────

/// Why a handler stops reading from its client.
#[derive(Debug, Clone, Copy, PartialEq, Eq, Structural)]
pub enum CloseReason {
    /// The client has sent all it will send.
    Eof,
    /// No tunnel took a frame in time.
    NoTunnel,
    /// Reading from the client failed.
    ReadError,
    /// The connection was reset.
    Reset,
    /// The connection was swept.
    Swept,
}

/// What a handler still owes the other end.
#[derive(Debug, Clone, Copy, PartialEq, Eq, Structural)]
pub struct Farewell {
    /// Send an RST.
    pub rst: bool,
    /// Wait for the rest of the response.
    pub grace: bool,
}

/// A FIN is to be sent: not after a reset, which the other end knows of, nor where a
/// frame is missing, which a FIN would hide.
pub open spec fn fin_is_due(reason: CloseReason) -> bool {
    reason == CloseReason::Eof || reason == CloseReason::ReadError || reason == CloseReason::Swept
}

/// What is owed once a FIN was sent, or was not: an RST in its place, unless the
/// connection was reset; and only a client that has ended in order, with a FIN that
/// was sent, gets the rest of the response.
pub open spec fn farewell(reason: CloseReason, fin_sent: bool) -> Farewell {
    Farewell {
        rst: reason == CloseReason::NoTunnel || (fin_is_due(reason) && !fin_sent),
        grace: reason == CloseReason::Eof && fin_sent,
    }
}

/// Whether a handler sends a FIN.
pub fn wants_fin(reason: CloseReason) -> (r: bool)
    ensures
        r == fin_is_due(reason),
{
    reason == CloseReason::Eof || reason == CloseReason::ReadError || reason == CloseReason::Swept
}

/// What a handler still owes the other end, after a FIN was sent or was not.
pub fn after_fin(reason: CloseReason, fin_sent: bool) -> (r: Farewell)
    ensures
        r == farewell(reason, fin_sent),
{
    Farewell {
        rst: reason == CloseReason::NoTunnel || (wants_fin(reason) && !fin_sent),
        grace: reason == CloseReason::Eof && fin_sent,
    }
}

/// The reason that a handler stops for when it is told to.
pub fn stop_reason(reset: bool) -> (r: CloseReason)
    ensures
        r == (if reset {
            CloseReason::Reset
        } else {
            CloseReason::Swept
        }),
{
    if reset {
        CloseReason::Reset
    } else {
        CloseReason::Swept
    }
}

/// However a client connection closes, the other end gets to know: by a FIN, by an
/// RST, or by the reset that closed it. It never gets both a FIN and an RST.
pub proof fn law_other_end_is_told(reason: CloseReason, fin_sent: bool)
    requires
        fin_sent ==> fin_is_due(reason),
    ensures
        fin_sent || farewell(reason, fin_sent).rst || reason == CloseReason::Reset,
        !(fin_sent && farewell(reason, fin_sent).rst),
{
}

// ── UDP associations ──────────────────────────────────────────────────

/// The client that a UDP ASSOCIATE request names, if it names a certain one: an IP
/// address and a port, neither of which is zero.
pub open spec fn named_client(address: Seq<char>, port: u16) -> Option<SocketAddress> {
    match ip(address) {
        Some(ip) => if port == 0 || ip == IpAddress::V4(0) || ip == IpAddress::V6(0) {
            None
        } else {
            Some(SocketAddress { ip, port })
        },
        None => None,
    }
}

/// The client that a UDP ASSOCIATE request names, if it names a certain one.
pub fn declared_client(target: &TargetAddr) -> (r: Option<SocketAddress>)
    ensures
        r == named_client(target@.address, target@.port),
{
    match parse_ip(target.address.as_str()) {
        Some(ip) => if target.port == 0 || ip == IpAddress::V4(0) || ip == IpAddress::V6(0) {
            None
        } else {
            Some(SocketAddress { ip, port: target.port })
        },
        None => None,
    }
}

/// Whether a datagram that so many attempts could not hand to a tunnel is tried again,
/// or else dropped.
pub fn is_tried_again(made: usize) -> (r: bool)
    ensures
        r == (made < DATAGRAM_ATTEMPTS),
{
    made < DATAGRAM_ATTEMPTS
}

/// Who uses a UDP association: the client that its request names, or else the first
/// one to send a datagram.
pub struct UdpRelay {
    client: Option<SocketAddress>,
}

impl UdpRelay {
    /// The client, once it is known.
    pub closed spec fn client(&self) -> Option<SocketAddress> {
        self.client
    }

    /// An association for the client that its request names, if it names one.
    pub fn new(declared: Option<SocketAddress>) -> (r: Self)
        ensures
            r.client() == declared,
    {
        UdpRelay { client: declared }
    }

    /// Whether a datagram from an address is the client's. Before the client is known,
    /// whoever sends is the client.
    pub fn accepts(&mut self, from: SocketAddress) -> (r: bool)
        ensures
            r == (old(self).client() is None || old(self).client() == Some(from)),
            final(self).client() == (if old(self).client() is None {
                Some(from)
            } else {
                old(self).client()
            }),
    {
        match self.client {
            None => {
                self.client = Some(from);
                true
            },
            Some(known) => known == from,
        }
    }

    /// Where responses go, once the client is known.
    pub fn reply_to(&self) -> (r: Option<SocketAddress>)
        ensures
            r == self.client(),
    {
        self.client
    }
}

// ── Laws ──────────────────────────────────────────────────────────────

/// An id that was given up, by a reset, by a sweep or by its handler, is not given to
/// a new connection before its time is up.
pub proof fn law_ids_rest_before_reuse(
    s: SplitterView,
    cid: u32,
    token: u64,
    is_udp: bool,
    now: u64,
)
    ensures
        !s.reset(cid, now).0.is_free(cid),
        !s.closed(cid, token, is_udp, now).0.is_free(cid),
        s.is_expired(cid, now) ==> !s.swept(now).is_free(cid),
        s.time_wait.contains_key(cid) && span(now, s.time_wait[cid]) < TIME_WAIT_TTL ==> !s.swept(
            now,
        ).is_free(cid),
{
}

/// A connection whose client is still sending is not swept because its response is
/// complete, and one whose handler waits for the rest of a response is not swept at
/// all.
pub proof fn law_sweep_spares_the_active(c: ClientView, now: u64)
    requires
        c.handler_alive,
        c.fin_received,
    ensures
        span_secs(now, c.last_active) <= FIN_COMPLETE_IDLE_SECS ==> !c.is_expired(now),
        c.grace_waiting ==> !c.is_expired(now),
        !c.is_complete() && span_secs(now, c.last_active) <= TCP_IDLE_TIMEOUT ==> !c.is_expired(now),
{
}

/// A FIN from the other end closes nothing: the connection stays as it is, but for the
/// FIN, and goes on taking data in.
pub proof fn law_fin_is_a_half_close(s: SplitterView, f: FrameView, now: u64)
    requires
        flagged(f.flags, FLAG_FIN),
        !flagged(f.flags, FLAG_DATA),
        s.conns.contains_key(f.conn_id),
    ensures
        ({
            let next = s.on_frame(f, now).0;
            &&& next.conns.contains_key(f.conn_id)
            &&& next.conns[f.conn_id].reorder == s.conns[f.conn_id].reorder
            &&& next.conns[f.conn_id].token == s.conns[f.conn_id].token
            &&& next.time_wait == s.time_wait
            &&& forall|other: u32|
                other != f.conn_id ==> (next.conns.contains_key(other)
                    <==> #[trigger] s.conns.contains_key(other))
        }),
{
}

/// Data for a connection that is not there is answered with an RST and with nothing
/// else.
pub proof fn law_stray_data_is_reset(s: SplitterView, f: FrameView, now: u64)
    requires
        flagged(f.flags, FLAG_DATA),
        !s.conns.contains_key(f.conn_id),
    ensures
        s.on_frame(f, now) == (s, seq![ActionView::Send(FrameView::rst(f.conn_id))]),
{
}

/// A client that does not drain its datagrams loses them, and not its association.
pub proof fn law_udp_is_never_reset_by_a_full_client(
    s: SplitterView,
    cid: u32,
    token: u64,
    count: u64,
    ok: bool,
    now: u64,
)
    requires
        s.is_current(cid, token),
        s.conns[cid].is_udp,
    ensures
        s.on_delivered(cid, token, count, ok, now).0.is_current(cid, token),
        s.on_delivered(cid, token, count, ok, now).1.len() == 0,
{
}

/// The wait for the rest of a response ends: at the latest when the grace after a FIN
/// is over, or after a silence without one.
pub proof fn law_grace_ends(s: SplitterView, cid: u32, token: u64, seen: u64, now: u64)
    ensures
        s.is_current(cid, token) && s.conns[cid].fin_received && span(now, seen) >= CLOSE_GRACE_MAX
            ==> s.grace(cid, token, Some(seen), now) == Grace::Over,
        s.is_current(cid, token) && !s.conns[cid].fin_received && span(
            now,
            s.conns[cid].last_active,
        ) >= CLOSE_QUIET_TIMEOUT ==> s.grace(cid, token, None, now) == Grace::Over,
        s.is_current(cid, token) && s.conns[cid].fin_received && s.conns[cid].is_complete()
            ==> s.grace(cid, token, Some(seen), now) == Grace::Over,
{
}

/// The chunks that a list of actions queues for a client.
pub open spec fn queued(actions: Seq<ActionView>, cid: u32) -> Seq<Seq<u8>>
    decreases actions.len(),
{
    if actions.len() == 0 {
        Seq::empty()
    } else {
        let before = queued(actions.drop_last(), cid);
        match actions.last() {
            ActionView::Deliver { cid: to, token, chunks, count } => if to == cid {
                before + chunks
            } else {
                before
            },
            _ => before,
        }
    }
}

/// A splitter after a list of data frames of one connection, each of which was queued
/// for the client at once, and the chunks that were queued.
pub open spec fn feed(s: SplitterView, cid: u32, frames: Seq<FrameView>, now: u64) -> (
    SplitterView,
    Seq<Seq<u8>>,
)
    decreases frames.len(),
{
    if frames.len() == 0 {
        (s, Seq::empty())
    } else {
        let (t, out) = feed(s, cid, frames.drop_last(), now);
        let f = frames.last();
        let (u, actions) = t.on_frame(f, now);
        let v = if actions.len() == 0 {
            u
        } else {
            u.on_delivered(cid, u.conns[cid].token, f.payload.len() as u64, true, now).0
        };
        (v, out + queued(actions, cid))
    }
}

/// The data frames of an open TCP connection, however they arrive, are queued for its
/// client as the reorder window delivers them: in order, each once, as long as the
/// window does not overflow.
pub proof fn law_data_reaches_the_client_in_order(
    s: SplitterView,
    cid: u32,
    frames: Seq<FrameView>,
    now: u64,
)
    requires
        s.conns.contains_key(cid),
        !s.conns[cid].is_udp,
        forall|i: int|
            0 <= i < frames.len() ==> (#[trigger] frames[i]).conn_id == cid && frames[i].flags
                == FLAG_DATA,
        !overflows(s.conns[cid].reorder, pushes(frames)),
    ensures
        ({
            let (t, out) = feed(s, cid, frames, now);
            &&& t.conns.contains_key(cid)
            &&& !t.conns[cid].is_udp
            &&& (t.conns[cid].reorder, out) == run(s.conns[cid].reorder, pushes(frames))
        }),
    decreases frames.len(),
{
    assert(FLAG_DATA & FLAG_DATA != 0) by (bit_vector);
    if frames.len() > 0 {
        let f = frames[frames.len() - 1];
        let prev = frames.drop_last();
        let all = pushes(frames);
        assert(all.drop_last() =~= pushes(prev));
        assert forall|i: int| 0 <= i < prev.len() implies (#[trigger] prev[i]).conn_id == cid
            && prev[i].flags == FLAG_DATA by {
            assert(prev[i] == frames[i]);
        }
        law_data_reaches_the_client_in_order(s, cid, prev, now);
        let (t, out) = feed(s, cid, prev, now);
        let (u, actions) = t.on_frame(f, now);
        let (w, r) = t.conns[cid].reorder.push(f.seq, f.payload);
        if r.accepted {
            assert(actions.drop_last() =~= Seq::<ActionView>::empty());
            assert(queued(actions.drop_last(), cid) =~= Seq::<Seq<u8>>::empty());
            assert(Seq::<Seq<u8>>::empty() + r.ready =~= r.ready);
        } else {
            assert(queued(actions, cid) =~= r.ready);
        }
    }
}

/// What the other end sends as numbered frames on a new connection reaches the client,
/// over whichever tunnels the frames come: always as a prefix of what was sent, and all
/// of it when every frame has come.
pub proof fn law_response_arrives_whole(
    s: SplitterView,
    cid: u32,
    chunks: Seq<Seq<u8>>,
    arrival: Seq<int>,
    now: u64,
)
    requires
        s.conns.contains_key(cid),
        s.conns[cid] == ClientView::new(
            s.conns[cid].token,
            s.window,
            false,
            s.conns[cid].created_at,
        ),
        chunks.len() <= u64::MAX,
        forall|i: int| 0 <= i < arrival.len() ==> 0 <= #[trigger] arrival[i] < chunks.len(),
        !overflows(s.conns[cid].reorder, pushes(arrived(cid, chunks, arrival))),
    ensures
        ({
            let out = feed(s, cid, arrived(cid, chunks, arrival), now).1;
            &&& out.len() <= chunks.len()
            &&& out == chunks.take(out.len() as int)
            &&& (forall|k: int| 0 <= k < chunks.len() ==> #[trigger] arrival.contains(k)) ==> out
                == chunks
        }),
{
    let frames = arrived(cid, chunks, arrival);
    let input = pushes(frames);
    lemma_arrived_pushes(cid, chunks, arrival);
    assert(cut_from(input, chunks)) by {
        assert forall|i: int| 0 <= i < input.len() implies 1 <= (#[trigger] input[i]).0
            <= chunks.len() && input[i].1 == chunks[input[i].0 - 1] by {
            assert(0 <= arrival[i] < chunks.len());
        }
    }
    law_data_reaches_the_client_in_order(s, cid, frames, now);
    law_delivers_in_order(s.window, entry_cap(s.window), input, chunks);
    if forall|k: int| 0 <= k < chunks.len() ==> #[trigger] arrival.contains(k) {
        assert forall|n: int| 1 <= n <= chunks.len() implies #[trigger] arrives(input, n) by {
            assert(arrival.contains(n - 1));
            let i = arrival.index_of(n - 1);
            assert(input[i].0 == n);
        }
        law_delivers_everything(s.window, entry_cap(s.window), input, chunks);
    }
}

/// Of frames that were lost on a dying tunnel, each control frame is sent again, and
/// each connection that lost data is gone and the other end told.
pub proof fn law_losses_are_made_up_for(s: SplitterView, lost: Seq<FrameView>, i: int, now: u64)
    requires
        0 <= i < lost.len(),
    ensures
        ({
            let f = lost[i];
            let (t, actions) = s.on_lost(lost, now);
            if flagged(f.flags, FLAG_SYN | FLAG_FIN | FLAG_RST) {
                actions.contains(ActionView::Send(f))
            } else {
                &&& !t.conns.contains_key(f.conn_id)
                &&& s.conns.contains_key(f.conn_id) ==> !t.is_free(f.conn_id) && actions.contains(
                    ActionView::Send(FrameView::rst(f.conn_id)),
                )
            }
        }),
    decreases lost.len(),
{
    let prev = lost.drop_last();
    let f = lost[i];
    let (m, done) = s.on_lost(prev, now);
    let (t, actions) = s.on_lost(lost, now);
    let rst = ActionView::Send(FrameView::rst(f.conn_id));
    lemma_lost_only_removes(s, prev, now);
    lemma_lost_only_removes(s, lost, now);
    if i < prev.len() {
        law_losses_are_made_up_for(s, prev, i, now);
        assert(prev[i] == f);
        let told = if flagged(f.flags, FLAG_SYN | FLAG_FIN | FLAG_RST) {
            ActionView::Send(f)
        } else {
            rst
        };
        if done.contains(told) {
            let j = done.index_of(told);
            assert(actions[j] == told);
        }
    } else if flagged(f.flags, FLAG_SYN | FLAG_FIN | FLAG_RST) {
        assert(actions.last() == ActionView::Send(f));
    } else if m.conns.contains_key(f.conn_id) {
        assert(actions.last() == rst);
    } else if s.conns.contains_key(f.conn_id) {
        let j = done.index_of(rst);
        assert(actions[j] == rst);
    }
}

/// Making up for lost frames opens no connection, and the other end is told of each one
/// that goes.
proof fn lemma_lost_only_removes(s: SplitterView, lost: Seq<FrameView>, now: u64)
    ensures
        ({
            let (t, actions) = s.on_lost(lost, now);
            &&& forall|cid: u32| #[trigger]
                t.conns.contains_key(cid) ==> s.conns.contains_key(cid)
            &&& forall|cid: u32| #[trigger]
                s.conns.contains_key(cid) && !t.conns.contains_key(cid)
                    ==> t.time_wait.contains_key(cid) && actions.contains(
                    ActionView::Send(FrameView::rst(cid)),
                )
        }),
    decreases lost.len(),
{
    if lost.len() > 0 {
        let prev = lost.drop_last();
        lemma_lost_only_removes(s, prev, now);
        let (m, done) = s.on_lost(prev, now);
        let (t, actions) = s.on_lost(lost, now);
        assert forall|cid: u32| #[trigger]
            s.conns.contains_key(cid) && !t.conns.contains_key(
                cid,
            ) implies t.time_wait.contains_key(cid) && actions.contains(
            ActionView::Send(FrameView::rst(cid)),
        ) by {
            let rst = ActionView::Send(FrameView::rst(cid));
            if m.conns.contains_key(cid) {
                assert(actions.last() == rst);
            } else {
                let j = done.index_of(rst);
                assert(actions[j] == rst);
            }
        }
    }
}

/// Whatever connection a sweep gives up, the other end is told and the id rests.
pub proof fn law_sweep_tells_the_other_end(
    s: SplitterView,
    actions: Seq<ActionView>,
    cid: u32,
    now: u64,
)
    requires
        s.sweeps(actions, now),
        s.is_expired(cid, now),
    ensures
        actions.contains(ActionView::Send(FrameView::rst(cid))),
        !s.swept(now).is_free(cid),
{
    let cids = choose|cids: Seq<u32>|
        s.lists_expired(cids, now) && actions == #[trigger] s.expired_actions(cids);
    assert(cids.contains(cid));
    lemma_expired_told(s, cids, cid);
}

proof fn lemma_expired_told(s: SplitterView, cids: Seq<u32>, cid: u32)
    requires
        cids.contains(cid),
    ensures
        s.expired_actions(cids).contains(ActionView::Send(FrameView::rst(cid))),
    decreases cids.len(),
{
    let rst = ActionView::Send(FrameView::rst(cid));
    let all = s.expired_actions(cids);
    if cids.last() == cid {
        assert(all.last() == rst);
    } else {
        let prev = cids.drop_last();
        let i = cids.index_of(cid);
        assert(prev[i] == cid);
        lemma_expired_told(s, prev, cid);
        let j = s.expired_actions(prev).index_of(rst);
        assert(all[j] == rst);
    }
}

/// A datagram goes to its client as it is: it is neither put in order nor held back, and
/// never resets its association.
pub proof fn law_datagrams_pass_as_they_are(s: SplitterView, f: FrameView, now: u64)
    requires
        s.conns.contains_key(f.conn_id),
        s.conns[f.conn_id].is_udp,
        flagged(f.flags, FLAG_DATA),
    ensures
        s.on_frame(f, now) == (
            s,
            seq![
                ActionView::Deliver {
                    cid: f.conn_id,
                    token: s.conns[f.conn_id].token,
                    chunks: seq![f.payload],
                    count: f.payload.len() as u64,
                },
            ],
        ),
{
}

/// News of a connection that is gone does not touch another one under the same id.
pub proof fn law_stale_news_is_ignored(
    s: SplitterView,
    cid: u32,
    token: u64,
    count: u64,
    ok: bool,
    change: spec_fn(ClientView) -> ClientView,
    now: u64,
)
    requires
        !s.is_current(cid, token),
    ensures
        s.on_delivered(cid, token, count, ok, now).0 == s,
        s.on_delivered(cid, token, count, ok, now).1.len() == 0,
        s.updated(cid, token, change) == s,
        s.without(cid, token) == s,
        s.closed(cid, token, ok, now).0.conns == s.conns,
{
}

/// A connection is not touched by frames of another one, nor by what came of carrying out
/// what they asked for.
pub proof fn law_connections_are_independent(
    s: SplitterView,
    f: FrameView,
    cid: u32,
    token: u64,
    count: u64,
    ok: bool,
    now: u64,
)
    requires
        s.conns.contains_key(cid),
        f.conn_id != cid,
    ensures
        s.on_frame(f, now).0.conns.contains_key(cid),
        s.on_frame(f, now).0.conns[cid] == s.conns[cid],
        s.on_delivered(f.conn_id, token, count, ok, now).0.conns.contains_key(cid),
        s.on_delivered(f.conn_id, token, count, ok, now).0.conns[cid] == s.conns[cid],
{
}

} // verus!
