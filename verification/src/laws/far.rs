//! The far end: what each event does to a connection to a target, and to nothing else.

use crate::addr::{normal_text, SocketAddress};
use crate::frame::{read_syn, FrameView, MAX_PENDING_BYTES, MAX_PENDING_CIDS};
use crate::reassembler::{
    data_bytes, forwards, pending_size, pushes, replacement, replay, response_frame, ActionView,
    ConnView, HalfClose, PendingView, ReassemblerView, CLOSED_TTL, HANDSHAKING_TTL,
    MAX_PENDING_FRAMES_PER_CID, PENDING_TTL_SECS,
};
use crate::reorder::{entry_cap, fresh, overflows, run, ReorderView};
use crate::socks5::{address_bytes, datagram};
use crate::sums::total;
use vstd::prelude::*;

verus! {

/// The limits of the far end, in plain numbers; times are in nanoseconds.
pub proof fn law_far_limits()
    ensures
        CLOSED_TTL == 60_000_000_000,
        HANDSHAKING_TTL == 120_000_000_000,
        MAX_PENDING_FRAMES_PER_CID == 256,
        MAX_PENDING_CIDS == 256,
        MAX_PENDING_BYTES == 67_108_864,
        PENDING_TTL_SECS == 30,
{
}

// ── One connection ────────────────────────────────────────────────────

/// A new connection has carried nothing, waits for number 1, and is open in both
/// directions.
pub proof fn law_new_egress(token: u64, window: nat, is_udp: bool, now: u64)
    ensures
        ({
            let c = ConnView::new(token, window, is_udp, now);
            &&& c.token == token && c.is_udp == is_udp
            &&& c.reorder == fresh(window, entry_cap(window))
            &&& !c.fin_received && c.fin_seq == 0
            &&& !c.egress_eof && c.half_close == HalfClose::Open
            &&& c.created_at == now && c.last_active == now
            &&& c.bytes_sent == 0 && c.bytes_recv == 0 && c.frames_sent == 0 && c.frames_recv == 0
        }),
{
}

/// A frame that is carried, in whichever direction, is counted and is activity; nothing
/// else about the connection changes.
pub proof fn law_frames_are_activity(c: ConnView, len: nat, now: u64)
    ensures
        c.received(len, now) == (ConnView {
            bytes_recv: c.bytes_recv.wrapping_add(len as u64),
            frames_recv: c.frames_recv.wrapping_add(1),
            last_active: now,
            ..c
        }),
        c.sent(len, now) == (ConnView {
            bytes_sent: c.bytes_sent.wrapping_add(len as u64),
            frames_sent: c.frames_sent.wrapping_add(1),
            last_active: now,
            ..c
        }),
{
}

/// The write half closes when it is open and everything below the number in the FIN has
/// been delivered, or by force whenever it is not closed; and changes nothing else.
pub proof fn law_closing_the_write_half(c: ConnView, force: bool)
    ensures
        ({
            let (d, shut) = c.close_write(force);
            &&& force ==> (shut <==> c.half_close != HalfClose::Closed)
            &&& !force ==> (shut <==> c.half_close == HalfClose::Open && c.reorder.expected
                >= c.fin_seq)
            &&& shut ==> d == (ConnView { half_close: HalfClose::Closed, ..c })
            &&& !shut ==> d == c
        }),
{
}

/// A connection has ended when both directions have, and everything was written.
pub proof fn law_when_a_connection_has_ended(c: ConnView)
    ensures
        c.is_done() <==> c.fin_received && c.egress_eof && c.half_close == HalfClose::Closed,
{
}

/// An event is about a connection when that is still there under the same token.
pub proof fn law_tokens(s: ReassemblerView, cid: u32, token: u64)
    ensures
        s.is_current(cid, token) <==> s.conns.contains_key(cid) && s.conns[cid].token == token,
{
}

// ── Ending ────────────────────────────────────────────────────────────

/// The target's end does not end the client's direction: as long as the client has not
/// ended it, the connection stays, as it was but for the note of the target's end. No
/// action is asked for but to tell the other end where a FIN could not. Data that comes
/// later is dealt with as before.
pub proof fn law_the_target_ends_its_own_direction(
    s: ReassemblerView,
    cid: u32,
    token: u64,
    fin_sent: bool,
    now: u64,
    f: FrameView,
    later: u64,
)
    requires
        s.conns.contains_key(cid),
        s.conns[cid].token == token,
        !s.conns[cid].fin_received,
    ensures
        ({
            let (t, actions) = s.on_egress_ended(cid, token, fin_sent, now);
            &&& t == (ReassemblerView {
                conns: s.conns.insert(cid, ConnView { egress_eof: true, ..s.conns[cid] }),
                ..s
            })
            &&& actions == (if fin_sent {
                Seq::empty()
            } else {
                seq![ActionView::Send(FrameView::rst(cid))]
            })
            &&& f.conn_id == cid && f.flags == 2 && !s.conns[cid].is_udp && s.conns[cid].reorder.push(
                f.seq,
                f.payload,
            ).1.accepted ==> t.on_frame(f, later).1 == s.on_frame(f, later).1 && t.on_frame(
                f,
                later,
            ).0.conns.contains_key(cid)
        }),
{
    assert(2u8 & 1 == 0 && 2u8 & 2 != 0) by (bit_vector);
    let (t, actions) = s.on_egress_ended(cid, token, fin_sent, now);
    let told = if fin_sent {
        Seq::<ActionView>::empty()
    } else {
        seq![ActionView::Send(FrameView::rst(cid))]
    };
    assert(actions =~= told);
}

/// When the client has ended its direction before, the target's end lets the connection
/// go if everything was written, and else leaves it until that is so. News of a connection
/// that is gone changes nothing; the other end is told all the same where a FIN could not.
pub proof fn law_the_target_ends_last(
    s: ReassemblerView,
    cid: u32,
    token: u64,
    fin_sent: bool,
    now: u64,
)
    ensures
        ({
            let (t, actions) = s.on_egress_ended(cid, token, fin_sent, now);
            let c = s.conns[cid];
            let meant = s.conns.contains_key(cid) && c.token == token;
            let told = if fin_sent {
                Seq::<ActionView>::empty()
            } else {
                seq![ActionView::Send(FrameView::rst(cid))]
            };
            &&& !meant ==> t == s && actions == told
            &&& meant && c.fin_received && c.half_close == HalfClose::Closed ==> t == (
            ReassemblerView { conns: s.conns.remove(cid), closed: s.closed.insert(cid, now), ..s })
                && actions == told.push(ActionView::Release { cid })
            &&& meant && c.fin_received && c.half_close != HalfClose::Closed ==> t == (
            ReassemblerView {
                conns: s.conns.insert(cid, ConnView { egress_eof: true, ..c }),
                ..s
            }) && actions == told
        }),
{
    let (t, actions) = s.on_egress_ended(cid, token, fin_sent, now);
    let c = s.conns[cid];
    if s.conns.contains_key(cid) && c.token == token {
        let d = ConnView { egress_eof: true, ..c };
        assert(s.conns.insert(cid, d).remove(cid) =~= s.conns.remove(cid));
        if c.fin_received && c.half_close == HalfClose::Closed {
            assert(actions =~= if fin_sent {
                seq![ActionView::Release { cid }]
            } else {
                seq![ActionView::Send(FrameView::rst(cid)), ActionView::Release { cid }]
            });
            assert(actions =~= (if fin_sent {
                Seq::<ActionView>::empty()
            } else {
                seq![ActionView::Send(FrameView::rst(cid))]
            }).push(ActionView::Release { cid }));
        } else {
            assert(actions =~= if fin_sent {
                Seq::<ActionView>::empty()
            } else {
                seq![ActionView::Send(FrameView::rst(cid))]
            });
        }
    }
}

/// The client's end: it is noted once, with its number, and the fallback is armed. The
/// write half closes at once where everything came before, and the connection goes only
/// where the target has ended too and the write half is closed. A repeated end changes
/// nothing of a connection that stays.
pub proof fn law_the_client_ends(s: ReassemblerView, f: FrameView, now: u64)
    requires
        f.flags == 4,
        s.conns.contains_key(f.conn_id),
        !s.conns[f.conn_id].is_udp,
    ensures
        ({
            let cid = f.conn_id;
            let c = s.conns[cid];
            let (t, actions) = s.on_frame(f, now);
            let shut = c.half_close == HalfClose::Open && c.reorder.expected >= f.seq;
            let d = ConnView {
                fin_received: true,
                fin_seq: f.seq,
                half_close: if shut {
                    HalfClose::Closed
                } else {
                    c.half_close
                },
                ..c
            };
            let over = c.egress_eof && d.half_close == HalfClose::Closed;
            let gone = ReassemblerView {
                conns: s.conns.remove(cid),
                closed: s.closed.insert(cid, now),
                ..s
            };
            let armed = seq![ActionView::ArmForceClose { cid, token: c.token }];
            let close = ActionView::CloseWrite { cid };
            let release = ActionView::Release { cid };
            &&& !c.fin_received && !over ==> t == (ReassemblerView {
                conns: s.conns.insert(cid, d),
                ..s
            })
            &&& !c.fin_received && over ==> t == gone
            &&& !c.fin_received ==> actions == armed + (if shut {
                seq![close]
            } else {
                Seq::empty()
            }) + (if over {
                seq![release]
            } else {
                Seq::empty()
            })
            &&& c.fin_received && !c.is_done() ==> t == s && actions.len() == 0
            &&& c.fin_received && c.is_done() ==> t == gone && actions == seq![release]
        }),
{
    assert(4u8 & 1 == 0 && 4u8 & 2 == 0 && 4u8 & 4 != 0) by (bit_vector);
    let cid = f.conn_id;
    let c = s.conns[cid];
    let (d, shut) = (ConnView { fin_received: true, fin_seq: f.seq, ..c }).close_write(false);
    assert(s.conns.insert(cid, d).remove(cid) =~= s.conns.remove(cid));
}

/// The fallback after an end: the write half closes whatever is missing, once, and the
/// connection stays.
pub proof fn law_the_fallback_closes(s: ReassemblerView, cid: u32, token: u64)
    ensures
        ({
            let (t, actions) = s.on_half_close_timeout(cid, token);
            let c = s.conns[cid];
            let meant = s.conns.contains_key(cid) && c.token == token;
            let shut = meant && c.half_close != HalfClose::Closed;
            &&& !meant ==> t == s
            &&& meant ==> t == (ReassemblerView {
                conns: s.conns.insert(cid, ConnView { half_close: HalfClose::Closed, ..c }),
                ..s
            })
            &&& actions == (if shut {
                seq![ActionView::CloseWrite { cid }]
            } else {
                Seq::empty()
            })
        }),
{
}

/// A reset: the connection is gone, its id is remembered as closed, its tasks stop and the
/// other end is told; it is counted. Nothing else changes.
pub proof fn law_resetting(s: ReassemblerView, cid: u32, now: u64)
    ensures
        s.reset(cid, now).0 == (ReassemblerView {
            conns: s.conns.remove(cid),
            closed: s.closed.insert(cid, now),
            resets: s.resets.wrapping_add(1),
            ..s
        }),
        s.reset(cid, now).1 == seq![
            ActionView::Teardown { cid },
            ActionView::Send(FrameView::rst(cid)),
        ],
{
}

// ── Frames of a connection that is there ──────────────────────────────

/// Of several flags one counts: a SYN before data, data before an end, an end before a
/// reset. A frame without any of these is ignored.
pub proof fn law_which_flag_counts(s: ReassemblerView, f: FrameView, now: u64)
    ensures
        f.flags & 1 != 0 ==> s.on_frame(f, now) == s.on_frame(FrameView { flags: 1, ..f }, now),
        (s.conns.contains_key(f.conn_id) || s.closed.contains_key(f.conn_id)) && f.flags & 1 == 0
            && f.flags & 2 != 0 ==> s.on_frame(f, now) == s.on_frame(
            FrameView { flags: 2, ..f },
            now,
        ),
        (s.conns.contains_key(f.conn_id) || s.closed.contains_key(f.conn_id)) && f.flags & 1 == 0
            && f.flags & 2 == 0 && f.flags & 4 != 0 ==> s.on_frame(f, now) == s.on_frame(
            FrameView { flags: 4, ..f },
            now,
        ),
        f.flags & 1 == 0 && f.flags & 2 == 0 && f.flags & 4 == 0 && f.flags & 8 != 0
            ==> s.on_frame(f, now) == s.on_frame(FrameView { flags: 8, ..f }, now),
        f.flags & 15 == 0 ==> s.on_frame(f, now) == (s, Seq::<ActionView>::empty()),
{
    let x = f.flags;
    assert(1u8 & 1 != 0 && 2u8 & 1 == 0 && 2u8 & 2 != 0 && 4u8 & 1 == 0 && 4u8 & 2 == 0 && 4u8 & 4
        != 0 && 8u8 & 1 == 0 && 8u8 & 2 == 0 && 8u8 & 4 == 0 && 8u8 & 8 != 0) by (bit_vector);
    assert(x & 15 == 0 ==> x & 1 == 0 && x & 2 == 0 && x & 4 == 0 && x & 8 == 0) by (bit_vector);
}

/// Data on a connection: a datagram goes to its target as it is, and counts. Of a TCP
/// connection, what the window delivers is queued for the target, with the size of the
/// frame that brought it; a repeated frame asks for nothing; one that overflows the window
/// resets the connection.
pub proof fn law_inbound_data(s: ReassemblerView, f: FrameView, now: u64)
    requires
        f.flags == 2,
        s.conns.contains_key(f.conn_id),
    ensures
        ({
            let cid = f.conn_id;
            let c = s.conns[cid];
            let (w, r) = c.reorder.push(f.seq, f.payload);
            let (t, actions) = s.on_frame(f, now);
            &&& c.is_udp ==> actions == seq![ActionView::Forward { cid, datagram: f.payload }]
                && t == (ReassemblerView {
                conns: s.conns.insert(cid, c.received(f.payload.len(), now)),
                ..s
            })
            &&& !c.is_udp && r.accepted ==> actions == seq![
                ActionView::Deliver {
                    cid,
                    token: c.token,
                    chunks: r.ready,
                    count: Some(f.payload.len() as u64),
                },
            ] && t == (ReassemblerView {
                conns: s.conns.insert(cid, ConnView { reorder: w, ..c }),
                ..s
            })
            &&& !c.is_udp && r.overflow ==> (t, actions) == s.reset(cid, now)
            &&& !c.is_udp && !r.accepted && !r.overflow ==> t == s && actions.len() == 0
        }),
{
    assert(2u8 & 1 == 0 && 2u8 & 2 != 0) by (bit_vector);
}

/// An end means nothing to an association, nor to a connection that was closed; late data
/// of a closed connection is answered with an RST.
pub proof fn law_late_and_pointless_frames(s: ReassemblerView, f: FrameView, now: u64)
    ensures
        f.flags == 4 && s.conns.contains_key(f.conn_id) && s.conns[f.conn_id].is_udp
            ==> s.on_frame(f, now) == (s, Seq::<ActionView>::empty()),
        f.flags == 4 && !s.conns.contains_key(f.conn_id) && s.closed.contains_key(f.conn_id)
            ==> s.on_frame(f, now) == (s, Seq::<ActionView>::empty()),
        f.flags == 2 && !s.conns.contains_key(f.conn_id) && s.closed.contains_key(f.conn_id)
            ==> s.on_frame(f, now) == (s, seq![ActionView::Send(FrameView::rst(f.conn_id))]),
{
    assert(4u8 & 1 == 0 && 4u8 & 2 == 0 && 4u8 & 4 != 0) by (bit_vector);
    assert(2u8 & 1 == 0 && 2u8 & 2 != 0) by (bit_vector);
}

/// A reset from the other end: a connection is gone at once, without an answer; frames that
/// wait are given up, and an attempt to connect is aborted; and the id is closed in any
/// case.
pub proof fn law_inbound_reset(s: ReassemblerView, f: FrameView, now: u64)
    requires
        f.flags == 8,
    ensures
        ({
            let cid = f.conn_id;
            let (t, actions) = s.on_frame(f, now);
            let entry = s.pending[cid];
            &&& s.conns.contains_key(cid) ==> t == (ReassemblerView {
                conns: s.conns.remove(cid),
                closed: s.closed.insert(cid, now),
                resets: s.resets.wrapping_add(1),
                ..s
            }) && actions == seq![ActionView::Teardown { cid }]
            &&& !s.conns.contains_key(cid) ==> t == (ReassemblerView {
                pending: t.pending,
                closed: s.closed.insert(cid, now),
                ..s
            })
            &&& !s.conns.contains_key(cid) && s.pending.contains_key(cid) ==> t.pending
                == s.pending.insert(cid, PendingView { cancelled: true, ..entry })
            &&& !s.conns.contains_key(cid) && !s.pending.contains_key(cid) ==> t.pending == s.pending
            &&& !s.conns.contains_key(cid) ==> actions == (if s.pending.contains_key(cid)
                && entry.connecting {
                seq![ActionView::CancelHandshake { cid }]
            } else {
                Seq::empty()
            })
        }),
{
    assert(8u8 & 1 == 0 && 8u8 & 2 == 0 && 8u8 & 4 == 0 && 8u8 & 8 != 0) by (bit_vector);
}

/// What came of queueing chunks for a target: refused, the connection is reset. Taken, the
/// frame that brought them counts; and where the client has ended its direction, the write
/// half closes as soon as everything was delivered, and the connection goes if the target
/// has ended too. News of a connection that is gone changes nothing.
pub proof fn law_queued_for_the_target(
    s: ReassemblerView,
    cid: u32,
    token: u64,
    count: Option<u64>,
    ok: bool,
    now: u64,
)
    ensures
        ({
            let (t, actions) = s.on_delivered(cid, token, count, ok, now);
            let c = s.conns[cid];
            let meant = s.conns.contains_key(cid) && c.token == token;
            let n = count->Some_0 as nat;
            let shut = c.fin_received && c.half_close == HalfClose::Open && c.reorder.expected
                >= c.fin_seq;
            let d = ConnView {
                half_close: if shut {
                    HalfClose::Closed
                } else {
                    c.half_close
                },
                ..c.received(n, now)
            };
            let over = c.fin_received && c.egress_eof && d.half_close == HalfClose::Closed;
            &&& !meant ==> t == s && actions.len() == 0
            &&& meant && !ok ==> (t, actions) == s.reset(cid, now)
            &&& meant && ok && count is None ==> t == s && actions.len() == 0
            &&& meant && ok && count is Some && !over ==> t == (ReassemblerView {
                conns: s.conns.insert(cid, d),
                ..s
            })
            &&& meant && ok && count is Some && over ==> t == (ReassemblerView {
                conns: s.conns.remove(cid),
                closed: s.closed.insert(cid, now),
                ..s
            })
            &&& meant && ok && count is Some ==> actions == (if shut {
                seq![ActionView::CloseWrite { cid }]
            } else {
                Seq::empty()
            }) + (if over {
                seq![ActionView::Release { cid }]
            } else {
                Seq::empty()
            })
        }),
{
    let c = s.conns[cid];
    if s.is_current(cid, token) && ok && count is Some {
        let e = c.received(count->Some_0 as nat, now);
        let (d, shut) = e.close_write(false);
        assert(s.conns.insert(cid, d).remove(cid) =~= s.conns.remove(cid));
        let (t, actions) = s.on_delivered(cid, token, count, ok, now);
        assert(actions =~= (if c.fin_received && shut {
            seq![ActionView::CloseWrite { cid }]
        } else {
            Seq::<ActionView>::empty()
        }) + (if c.fin_received && c.egress_eof && d.half_close == HalfClose::Closed {
            seq![ActionView::Release { cid }]
        } else {
            Seq::<ActionView>::empty()
        }));
    }
}

/// A response that went out counts and is activity; one that could not be sent resets the
/// connection. News of a connection that is gone changes nothing.
pub proof fn law_responses(s: ReassemblerView, cid: u32, token: u64, len: nat, now: u64)
    ensures
        ({
            let meant = s.conns.contains_key(cid) && s.conns[cid].token == token;
            &&& meant ==> s.on_response_sent(cid, token, len, now) == (ReassemblerView {
                conns: s.conns.insert(cid, s.conns[cid].sent(len, now)),
                ..s
            })
            &&& !meant ==> s.on_response_sent(cid, token, len, now) == s
            &&& meant ==> s.on_response_failed(cid, token, now) == s.reset(cid, now)
            &&& !meant ==> s.on_response_failed(cid, token, now) == (s, Seq::<ActionView>::empty())
        }),
{
}

// ── Setting a connection up ───────────────────────────────────────────

/// A SYN for a connection that is not known: it is set up, by connecting to the target that
/// the SYN names, or by binding for datagrams; the frames that came before it wait on. One
/// that cannot be read, or asks for another protocol, is refused: the other end is told,
/// and nothing of the connection is left but that it is closed.
pub proof fn law_a_syn_sets_up(s: ReassemblerView, f: FrameView, now: u64)
    requires
        f.flags == 1,
        !s.conns.contains_key(f.conn_id),
        !s.handshaking.contains_key(f.conn_id),
        !s.closed.contains_key(f.conn_id),
    ensures
        ({
            let cid = f.conn_id;
            let (t, actions) = s.on_frame(f, now);
            let asked = read_syn(f.payload);
            let proto = asked->Ok_0.proto;
            let known = asked is Ok && (proto == 6 || proto == 17);
            &&& known ==> t.conns == s.conns && t.closed == s.closed && t.handshaking
                == s.handshaking.insert(cid, now) && t.resets == s.resets && t.window == s.window
                && t.next_token == s.next_token
            &&& known && s.pending.contains_key(cid) ==> t.pending == s.pending.insert(
                cid,
                PendingView { connecting: true, ..s.pending[cid] },
            )
            &&& known && !s.pending.contains_key(cid) ==> t.pending == s.pending.insert(
                cid,
                PendingView {
                    frames: Seq::empty(),
                    since: now,
                    bytes: 0,
                    cancelled: false,
                    connecting: true,
                },
            )
            &&& known && proto == 6 ==> actions == seq![
                ActionView::Connect { cid, target: asked->Ok_0 },
            ]
            &&& known && proto == 17 ==> actions == seq![ActionView::BindUdp { cid }]
            &&& !known ==> actions == seq![ActionView::Send(FrameView::rst(cid))] && t == (
            ReassemblerView {
                pending: s.pending.remove(cid),
                handshaking: s.handshaking.remove(cid),
                closed: s.closed.insert(cid, now),
                ..s
            })
        }),
{
    assert(1u8 & 1 != 0) by (bit_vector);
}

/// A SYN that comes again, or too late, sets nothing up: of a connection that is there it
/// changes nothing; one that is being set up is remembered from now on; and of one that
/// was closed the frames that wait are dropped.
pub proof fn law_a_syn_that_comes_again(s: ReassemblerView, f: FrameView, now: u64)
    requires
        f.flags == 1,
    ensures
        ({
            let cid = f.conn_id;
            let (t, actions) = s.on_frame(f, now);
            let there = s.conns.contains_key(cid);
            let under_way = s.handshaking.contains_key(cid);
            &&& there ==> t == s && actions.len() == 0
            &&& !there && under_way ==> t == (ReassemblerView {
                handshaking: s.handshaking.insert(cid, now),
                ..s
            }) && actions.len() == 0
            &&& !there && !under_way && s.closed.contains_key(cid) ==> t == (ReassemblerView {
                pending: s.pending.remove(cid),
                ..s
            }) && actions.len() == 0
        }),
{
    assert(1u8 & 1 != 0) by (bit_vector);
}

/// An attempt to connect that failed leaves nothing of the connection but that it is
/// closed, and the other end is told; one that is no longer wanted, the same without a
/// word.
pub proof fn law_a_failed_attempt(s: ReassemblerView, cid: u32, now: u64)
    ensures
        s.withdraw(cid, now) == (ReassemblerView {
            pending: s.pending.remove(cid),
            handshaking: s.handshaking.remove(cid),
            closed: s.closed.insert(cid, now),
            ..s
        }),
        s.abandon(cid, now) == (
            s.withdraw(cid, now),
            seq![ActionView::Send(FrameView::rst(cid))],
        ),
{
}

/// A target that is reached for a connection that was given up meanwhile is dropped.
pub proof fn law_reached_too_late(s: ReassemblerView, cid: u32, is_udp: bool, now: u64)
    requires
        s.closed.contains_key(cid) || (s.pending.contains_key(cid) && s.pending[cid].cancelled),
    ensures
        s.on_connected(cid, is_udp, now) == (
            s.withdraw(cid, now),
            None::<u64>,
            Seq::<ActionView>::empty(),
        ),
{
}

/// A target that is reached for TCP: the connection is there under a token of its own, and
/// the frames that waited are taken in as if they came now, one after the other: what the
/// window delivers of them is queued, and an end among them ends the client's direction.
/// Where they overflow the window the connection is reset.
pub proof fn law_reached_over_tcp(s: ReassemblerView, cid: u32, now: u64)
    requires
        !s.closed.contains_key(cid),
        s.pending.contains_key(cid),
        !s.pending[cid].cancelled,
    ensures
        ({
            let frames = s.pending[cid].frames;
            let (w, out) = run(fresh(s.window, entry_cap(s.window)), pushes(frames));
            let (t, token, actions) = s.on_connected(cid, false, now);
            let base = ReassemblerView {
                pending: s.pending.remove(cid),
                handshaking: s.handshaking.remove(cid),
                next_token: s.next_token.wrapping_add(1),
                ..s
            };
            let c = ConnView {
                reorder: w,
                ..ConnView::new(s.next_token, s.window, false, now)
            };
            let deliver = ActionView::Deliver {
                cid,
                token: s.next_token,
                chunks: out,
                count: None,
            };
            let there = ReassemblerView { conns: s.conns.insert(cid, c), ..base };
            let broken = overflows(fresh(s.window, entry_cap(s.window)), pushes(frames));
            &&& broken ==> token is None && (t, actions) == base.reset(cid, now)
            &&& !broken ==> token == Some(s.next_token)
            &&& !broken && last_end(frames) is None ==> t == there && actions == seq![deliver]
            &&& !broken && last_end(frames) is Some ==> ({
                let (u, more) = there.on_frame(
                    FrameView::fin(cid, last_end(frames)->Some_0),
                    now,
                );
                t == u && actions == seq![deliver] + more
            })
        }),
{
    assert(4u8 & 1 == 0 && 4u8 & 2 == 0 && 4u8 & 4 != 0) by (bit_vector);
    let frames = s.pending[cid].frames;
    let start = fresh(s.window, entry_cap(s.window));
    lemma_replay_is(start, frames);
}

/// A target that is reached for a connection that nothing waits for: it is there, new, and
/// there is nothing to queue.
pub proof fn law_reached_with_nothing_waiting(s: ReassemblerView, cid: u32, is_udp: bool, now: u64)
    requires
        !s.closed.contains_key(cid),
        !s.pending.contains_key(cid),
    ensures
        ({
            let (t, token, actions) = s.on_connected(cid, is_udp, now);
            &&& token == Some(s.next_token)
            &&& t == (ReassemblerView {
                conns: s.conns.insert(cid, ConnView::new(s.next_token, s.window, is_udp, now)),
                handshaking: s.handshaking.remove(cid),
                next_token: s.next_token.wrapping_add(1),
                ..s
            })
            &&& is_udp ==> actions.len() == 0
            &&& !is_udp ==> actions == seq![
                ActionView::Deliver {
                    cid,
                    token: s.next_token,
                    chunks: Seq::empty(),
                    count: None,
                },
            ]
        }),
{
    assert(s.pending.remove(cid) =~= s.pending);
}

/// The number in the last end of a list of frames, if there is one.
pub open spec fn last_end(frames: Seq<FrameView>) -> Option<u64>
    decreases frames.len(),
{
    if frames.len() == 0 {
        None
    } else if frames.last().flags & 2 == 0 && frames.last().flags & 4 != 0 {
        Some(frames.last().seq)
    } else {
        last_end(frames.drop_last())
    }
}

proof fn lemma_replay_is(start: ReorderView, frames: Seq<FrameView>)
    ensures
        ({
            let r = replay(start, frames);
            &&& r.broken == overflows(start, pushes(frames))
            &&& !r.broken ==> (r.reorder, r.ready) == run(start, pushes(frames)) && r.fin
                == last_end(frames)
        }),
    decreases frames.len(),
{
    if frames.len() > 0 {
        let less = frames.drop_last();
        lemma_replay_is(start, less);
        if frames.last().flags & 2 != 0 {
            assert(pushes(frames).drop_last() =~= pushes(less));
        }
    }
}

/// The data frames of a list, as pushes: each with its number and its payload, in order.
pub proof fn law_pushes(frames: Seq<FrameView>, f: FrameView)
    ensures
        pushes(Seq::empty()) == Seq::<(u64, Seq<u8>)>::empty(),
        pushes(frames.push(f)) == (if f.flags & 2 != 0 {
            pushes(frames).push((f.seq, f.payload))
        } else {
            pushes(frames)
        }),
{
    assert(frames.push(f).drop_last() =~= frames);
}

/// An association that is ready: the datagrams that waited go out, in order.
pub proof fn law_reached_for_datagrams(s: ReassemblerView, cid: u32, now: u64)
    requires
        !s.closed.contains_key(cid),
        s.pending.contains_key(cid),
        !s.pending[cid].cancelled,
    ensures
        ({
            let (t, token, actions) = s.on_connected(cid, true, now);
            &&& token == Some(s.next_token)
            &&& actions == forwards(cid, s.pending[cid].frames)
            &&& t == (ReassemblerView {
                conns: s.conns.insert(cid, ConnView::new(s.next_token, s.window, true, now)),
                pending: s.pending.remove(cid),
                handshaking: s.handshaking.remove(cid),
                next_token: s.next_token.wrapping_add(1),
                ..s
            })
        }),
{
}

/// The datagrams that waited, one by one.
pub proof fn law_waiting_datagrams(cid: u32, frames: Seq<FrameView>, f: FrameView)
    ensures
        forwards(cid, Seq::empty()) == Seq::<ActionView>::empty(),
        forwards(cid, frames.push(f)) == (if f.flags & 2 != 0 {
            forwards(cid, frames).push(ActionView::Forward { cid, datagram: f.payload })
        } else {
            forwards(cid, frames)
        }),
{
    assert(frames.push(f).drop_last() =~= frames);
}

// ── Frames that come early ────────────────────────────────────────────

/// Data and ends that come before their connection is there wait, in the order in which
/// they come, where there is room: fewer than 256 connections wait, or this one does
/// already; fewer than 256 frames wait for it; and the bytes fit into 64 MiB. Nothing is
/// asked for, and nothing else changes.
pub proof fn law_early_frames_wait(s: ReassemblerView, f: FrameView, now: u64)
    requires
        f.flags & 1 == 0,
        f.flags & 2 != 0 || f.flags & 4 != 0,
        s.pending.dom().finite(),
        !s.conns.contains_key(f.conn_id),
        !s.closed.contains_key(f.conn_id),
        s.pending.contains_key(f.conn_id) || s.pending.dom().len() < 256,
        s.pending.contains_key(f.conn_id) ==> s.pending[f.conn_id].frames.len() < 256,
        total(s.pending, |p: PendingView| p.bytes) + (if f.flags & 2 != 0 {
            f.payload.len()
        } else {
            0
        }) <= 67_108_864,
    ensures
        ({
            let cid = f.conn_id;
            let (t, actions) = s.on_frame(f, now);
            let need = if f.flags & 2 != 0 {
                f.payload.len()
            } else {
                0
            };
            let entry = s.pending[cid];
            &&& actions.len() == 0
            &&& t == (ReassemblerView { pending: t.pending, ..s })
            &&& s.pending.contains_key(cid) ==> t.pending == s.pending.insert(
                cid,
                PendingView { frames: entry.frames.push(f), bytes: entry.bytes + need, ..entry },
            )
            &&& !s.pending.contains_key(cid) ==> t.pending == s.pending.insert(
                cid,
                PendingView {
                    frames: seq![f],
                    since: now,
                    bytes: need,
                    cancelled: false,
                    connecting: false,
                },
            )
        }),
{
    assert(pending_size() =~= (|p: PendingView| p.bytes));
    assert(Seq::<FrameView>::empty().push(f) =~= seq![f]);
}

/// Where there is no room for an early frame, it is dropped and its connection fails: the
/// id is closed and the other end is told. That is so when 256 connections wait and this
/// one does not, and when 256 frames wait for it.
pub proof fn law_early_frames_beyond_the_limits(s: ReassemblerView, f: FrameView, now: u64)
    requires
        f.flags & 1 == 0,
        f.flags & 2 != 0 || f.flags & 4 != 0,
        s.pending.dom().finite(),
        !s.conns.contains_key(f.conn_id),
        !s.closed.contains_key(f.conn_id),
        (!s.pending.contains_key(f.conn_id) && s.pending.dom().len() >= 256) || (
        s.pending.contains_key(f.conn_id) && s.pending[f.conn_id].frames.len() >= 256 && total(
            s.pending,
            |p: PendingView| p.bytes,
        ) + f.payload.len() <= 67_108_864),
    ensures
        ({
            let cid = f.conn_id;
            let (t, actions) = s.on_frame(f, now);
            let entry = s.pending[cid];
            &&& t == (ReassemblerView {
                pending: t.pending,
                closed: s.closed.insert(cid, now),
                ..s
            })
            &&& s.pending.contains_key(cid) ==> t.pending == s.pending.insert(
                cid,
                PendingView { cancelled: true, ..entry },
            )
            &&& !s.pending.contains_key(cid) ==> t.pending == s.pending
            &&& actions == (if s.pending.contains_key(cid) && entry.connecting {
                seq![
                    ActionView::CancelHandshake { cid },
                    ActionView::Send(FrameView::rst(cid)),
                ]
            } else {
                seq![ActionView::Send(FrameView::rst(cid))]
            })
        }),
{
    assert(pending_size() =~= (|p: PendingView| p.bytes));
    let cid = f.conn_id;
    let (t, actions) = s.on_frame(f, now);
    assert(actions =~= (if s.pending.contains_key(cid) && s.pending[cid].connecting {
        seq![ActionView::CancelHandshake { cid }, ActionView::Send(FrameView::rst(cid))]
    } else {
        seq![ActionView::Send(FrameView::rst(cid))]
    }));
}

/// Where the bytes do not fit, room is made first. Then the frame waits if that gave
/// enough and fewer than 256 frames wait for its connection; and else it is dropped, and
/// its connection fails.
pub proof fn law_early_frames_that_need_room(s: ReassemblerView, f: FrameView, now: u64)
    requires
        f.flags & 1 == 0,
        f.flags & 2 != 0 || f.flags & 4 != 0,
        !s.conns.contains_key(f.conn_id),
        !s.closed.contains_key(f.conn_id),
        s.pending.contains_key(f.conn_id) || s.pending.dom().len() < 256,
    ensures
        ({
            let cid = f.conn_id;
            let need = if f.flags & 2 != 0 {
                f.payload.len()
            } else {
                0
            };
            let (t, actions) = s.on_frame(f, now);
            let (r, told, room) = s.reserve(cid, need, now);
            let entry = if r.pending.contains_key(cid) {
                r.pending[cid]
            } else {
                PendingView {
                    frames: Seq::empty(),
                    since: now,
                    bytes: 0,
                    cancelled: false,
                    connecting: false,
                }
            };
            let rst = ActionView::Send(FrameView::rst(cid));
            let waits = room && entry.frames.len() < 256;
            &&& waits ==> actions == told && t == (ReassemblerView {
                pending: r.pending.insert(
                    cid,
                    PendingView {
                        frames: entry.frames.push(f),
                        bytes: entry.bytes + need,
                        ..entry
                    },
                ),
                ..r
            })
            &&& !waits ==> t == (ReassemblerView {
                pending: t.pending,
                closed: r.closed.insert(cid, now),
                ..r
            })
            &&& !waits && r.pending.contains_key(cid) ==> t.pending == r.pending.insert(
                cid,
                PendingView { cancelled: true, ..entry },
            )
            &&& !waits && !r.pending.contains_key(cid) ==> t.pending == r.pending
            &&& !waits && entry.connecting ==> actions == told + seq![
                ActionView::CancelHandshake { cid },
                rst,
            ]
            &&& !waits && !entry.connecting ==> actions == told + seq![rst]
        }),
{
    let cid = f.conn_id;
    let rst = ActionView::Send(FrameView::rst(cid));
    assert(Seq::<ActionView>::empty().push(rst) =~= seq![rst]);
    assert(seq![ActionView::CancelHandshake { cid }].push(rst) =~= seq![
        ActionView::CancelHandshake { cid },
        rst,
    ]);
}

/// Room for bytes is made by giving up what has waited longest, and no more than that: the
/// connection that needs the room is not given up; whatever is given up has waited at
/// least as long as whatever stays, the needy one aside; nothing is given up where there
/// is room; and each that is given up is closed and its other end told. There is room in
/// the end unless nothing else is left to give up.
pub proof fn law_room_is_made_by_age(s: ReassemblerView, keep: u32, need: nat, now: u64)
    requires
        s.pending.dom().finite(),
    ensures
        ({
            let (t, actions, room) = s.reserve(keep, need, now);
            let used = total(s.pending, |p: PendingView| p.bytes);
            &&& t == (ReassemblerView { pending: t.pending, closed: t.closed, ..s })
            &&& used + need <= 67_108_864 ==> t == s && actions.len() == 0 && room
            &&& room ==> total(t.pending, |p: PendingView| p.bytes) + need <= 67_108_864
            &&& !room ==> forall|c: u32| #[trigger] t.pending.contains_key(c) ==> c == keep
            &&& forall|c: u32| #[trigger]
                t.pending.contains_key(c) ==> s.pending.contains_key(c) && t.pending[c]
                    == s.pending[c]
            &&& s.pending.contains_key(keep) ==> t.pending.contains_key(keep)
            &&& forall|gone: u32, stays: u32|
                #![trigger s.pending.contains_key(gone), t.pending.contains_key(stays)]
                s.pending.contains_key(gone) && !t.pending.contains_key(gone)
                    && t.pending.contains_key(stays) && stays != keep ==> s.pending[gone].since
                    <= s.pending[stays].since
            &&& forall|gone: u32| #[trigger]
                s.pending.contains_key(gone) && !t.pending.contains_key(gone)
                    ==> t.closed.contains_key(gone) && actions.contains(
                    ActionView::Send(FrameView::rst(gone)),
                )
            &&& forall|c: u32| #[trigger]
                t.closed.contains_key(c) ==> s.closed.contains_key(c) || (s.pending.contains_key(c)
                    && !t.pending.contains_key(c))
        }),
    decreases s.pending.dom().len(),
{
    assert(pending_size() =~= (|p: PendingView| p.bytes));
    let (t, actions, room) = s.reserve(keep, need, now);
    if s.used() + need > MAX_PENDING_BYTES {
        if exists|cid: u32| s.is_oldest(keep, cid) {
            let oldest = s.oldest(keep);
            assert(s.is_oldest(keep, oldest));
            let (next, first) = s.evict(oldest, now);
            law_room_is_made_by_age(next, keep, need, now);
            let (u, rest, r) = next.reserve(keep, need, now);
            assert forall|gone: u32, stays: u32|
                #![trigger s.pending.contains_key(gone), t.pending.contains_key(stays)]
                s.pending.contains_key(gone) && !t.pending.contains_key(gone)
                    && t.pending.contains_key(stays) && stays
                    != keep implies s.pending[gone].since <= s.pending[stays].since by {
                assert(next.pending.contains_key(stays));
                assert(s.evictable(keep, stays));
                if gone != oldest {
                    assert(next.pending.contains_key(gone));
                }
            }
            assert forall|gone: u32| #[trigger]
                s.pending.contains_key(gone) && !t.pending.contains_key(
                    gone,
                ) implies t.closed.contains_key(gone) && actions.contains(
                ActionView::Send(FrameView::rst(gone)),
            ) by {
                let told = ActionView::Send(FrameView::rst(gone));
                if gone == oldest {
                    assert(actions[first.len() - 1] == told);
                    lemma_reserve_keeps_closed(next, keep, need, now, gone);
                } else {
                    assert(next.pending.contains_key(gone));
                    let j = rest.index_of(told);
                    assert(actions[first.len() + j] == told);
                }
            }
            assert forall|c: u32| #[trigger] t.closed.contains_key(c) implies s.closed.contains_key(
                c,
            ) || (s.pending.contains_key(c) && !t.pending.contains_key(c)) by {
                if c == oldest {
                    assert(!next.pending.contains_key(c));
                    assert(t.pending.contains_key(c) ==> next.pending.contains_key(c));
                }
            }
        } else {
            assert forall|c: u32| #[trigger] t.pending.contains_key(c) implies c == keep by {
                if c != keep {
                    let o = lemma_oldest_exists(s, keep, s.pending.dom(), c);
                    assert(s.is_oldest(keep, o));
                }
            }
        }
    }
}

/// Room is made one by one: as long as the bytes do not fit, the entry that has waited
/// longest goes, of two that have waited equally long the one with the smaller id, and not
/// the one that needs the room. Its attempt to connect is aborted, its id is closed and its
/// other end is told. The rest goes on without it.
pub proof fn law_room_is_made_one_by_one(
    s: ReassemblerView,
    keep: u32,
    need: nat,
    now: u64,
    oldest: u32,
)
    requires
        s.pending.dom().finite(),
        total(s.pending, |p: PendingView| p.bytes) + need > 67_108_864,
        s.pending.contains_key(oldest),
        oldest != keep,
        forall|c: u32| #[trigger]
            s.pending.contains_key(c) && c != keep ==> s.pending[oldest].since < s.pending[c].since
                || (s.pending[oldest].since == s.pending[c].since && oldest <= c),
    ensures
        ({
            let (t, actions, room) = s.reserve(keep, need, now);
            let without = ReassemblerView {
                pending: s.pending.remove(oldest),
                closed: s.closed.insert(oldest, now),
                ..s
            };
            let (u, more, enough) = without.reserve(keep, need, now);
            let rst = ActionView::Send(FrameView::rst(oldest));
            &&& t == u && room == enough
            &&& s.pending[oldest].connecting ==> actions == seq![
                ActionView::CancelHandshake { cid: oldest },
                rst,
            ] + more
            &&& !s.pending[oldest].connecting ==> actions == seq![rst] + more
        }),
{
    assert(pending_size() =~= (|p: PendingView| p.bytes));
    assert forall|other: u32| #[trigger] s.evictable(keep, other) implies s.pending[oldest].since
        < s.pending[other].since || (s.pending[oldest].since == s.pending[other].since && oldest
        <= other) by {
        assert(s.pending.contains_key(other));
    }
    assert(s.is_oldest(keep, oldest));
    let o = s.oldest(keep);
    assert(s.is_oldest(keep, o));
    assert(s.evictable(keep, o) && s.evictable(keep, oldest));
    assert(o == oldest);
    let rst = ActionView::Send(FrameView::rst(oldest));
    assert(s.evict(oldest, now).1 =~= (if s.pending[oldest].connecting {
        seq![ActionView::CancelHandshake { cid: oldest }, rst]
    } else {
        seq![rst]
    }));
}

/// Where nothing else waits there is nothing to give up, and no room where the bytes do not
/// fit.
pub proof fn law_no_room_without_others(s: ReassemblerView, keep: u32, need: nat, now: u64)
    requires
        s.pending.dom().finite(),
        forall|c: u32| #[trigger] s.pending.contains_key(c) ==> c == keep,
    ensures
        s.reserve(keep, need, now) == (
            s,
            Seq::<ActionView>::empty(),
            total(s.pending, |p: PendingView| p.bytes) + need <= 67_108_864,
        ),
{
    assert(pending_size() =~= (|p: PendingView| p.bytes));
    if exists|cid: u32| s.is_oldest(keep, cid) {
        let cid = choose|cid: u32| s.is_oldest(keep, cid);
        assert(s.pending.contains_key(cid));
    }
}

proof fn lemma_reserve_keeps_closed(s: ReassemblerView, keep: u32, need: nat, now: u64, cid: u32)
    requires
        s.pending.dom().finite(),
        s.closed.contains_key(cid),
    ensures
        s.reserve(keep, need, now).0.closed.contains_key(cid),
    decreases s.pending.dom().len(),
{
    if s.used() + need > MAX_PENDING_BYTES && exists|c: u32| s.is_oldest(keep, c) {
        let (next, first) = s.evict(s.oldest(keep), now);
        lemma_reserve_keeps_closed(next, keep, need, now, cid);
    }
}

/// Of some entries that may be given up, one has waited longest.
proof fn lemma_oldest_exists(s: ReassemblerView, keep: u32, among: Set<u32>, one: u32) -> (o: u32)
    requires
        among.finite(),
        among.contains(one),
        one != keep,
        forall|c: u32| #[trigger] among.contains(c) ==> s.pending.contains_key(c),
    ensures
        among.contains(o) && o != keep,
        forall|c: u32| #[trigger]
            among.contains(c) && c != keep ==> s.pending[o].since < s.pending[c].since || (
            s.pending[o].since == s.pending[c].since && o <= c),
        among == s.pending.dom() ==> s.is_oldest(keep, o),
    decreases among.len(),
{
    let rest = among.remove(one);
    let o = if exists|c: u32| rest.contains(c) && c != keep {
        let c = choose|c: u32| rest.contains(c) && c != keep;
        let b = lemma_oldest_exists(s, keep, rest, c);
        if s.pending[one].since < s.pending[b].since || (s.pending[one].since
            == s.pending[b].since && one <= b) {
            one
        } else {
            b
        }
    } else {
        one
    };
    assert forall|c: u32| #[trigger] among.contains(c) && c != keep implies s.pending[o].since
        < s.pending[c].since || (s.pending[o].since == s.pending[c].since && o <= c) by {
        if c != one {
            assert(rest.contains(c));
        }
    }
    if among == s.pending.dom() {
        assert forall|other: u32| #[trigger] s.evictable(keep, other) implies s.pending[o].since
            < s.pending[other].since || (s.pending[o].since == s.pending[other].since && o
            <= other) by {
            assert(among.contains(other));
        }
    }
    o
}

/// The bytes that count are the payloads of data frames.
pub proof fn law_waiting_bytes(frames: Seq<FrameView>, f: FrameView)
    ensures
        data_bytes(Seq::empty()) == 0,
        data_bytes(frames.push(f)) == data_bytes(frames) + (if f.flags & 2 != 0 {
            f.payload.len()
        } else {
            0
        }),
{
    assert(frames.push(f).drop_last() =~= frames);
}

// ── Sweeping ──────────────────────────────────────────────────────────

/// A connection is swept when it has been silent for more than 300 whole seconds, or 60
/// for datagrams, and not before: it is the last frame that counts.
pub proof fn law_only_silence_is_swept(s: ReassemblerView, cid: u32, now: u64)
    ensures
        s.is_idle(cid, now) <==> s.conns.contains_key(cid) && now >= s.conns[cid].last_active + (
        if s.conns[cid].is_udp {
            61_000_000_000int
        } else {
            301_000_000_000int
        }),
{
}

/// Frames that have waited for 30 seconds are given up, and not before.
pub proof fn law_stale_frames(s: ReassemblerView, cid: u32, now: u64)
    ensures
        s.is_stale(cid, now) <==> s.pending.contains_key(cid) && now >= s.pending[cid].since
            + 30_000_000_000,
{
}

/// A sweep removes idle connections and stale frames, and closes their ids; it forgets
/// closed ids after 60 seconds and handshakes after 120; and it leaves everything else as
/// it is.
pub proof fn law_what_a_sweep_removes(s: ReassemblerView, cid: u32, now: u64)
    ensures
        ({
            let t = s.swept(now);
            let idle = s.is_idle(cid, now);
            let stale = s.is_stale(cid, now);
            &&& t.conns.contains_key(cid) <==> s.conns.contains_key(cid) && !idle
            &&& t.conns.contains_key(cid) ==> t.conns[cid] == s.conns[cid]
            &&& t.pending.contains_key(cid) <==> s.pending.contains_key(cid) && !stale
            &&& t.pending.contains_key(cid) ==> t.pending[cid] == s.pending[cid]
            &&& t.closed.contains_key(cid) <==> idle || stale || (s.closed.contains_key(cid) && now
                < s.closed[cid] + 60_000_000_000)
            &&& idle || stale ==> t.closed[cid] == now
            &&& t.closed.contains_key(cid) && !idle && !stale ==> t.closed[cid] == s.closed[cid]
            &&& t.handshaking.contains_key(cid) <==> s.handshaking.contains_key(cid) && now
                < s.handshaking[cid] + 120_000_000_000
            &&& t.handshaking.contains_key(cid) ==> t.handshaking[cid] == s.handshaking[cid]
            &&& t.resets == s.resets && t.window == s.window && t.next_token == s.next_token
        }),
{
}

/// What a sweep asks for: each idle connection is torn down and its other end told; for
/// stale frames the other end is told, and an attempt to connect is aborted; and nothing
/// else. Idle connections come first, and nothing is asked for twice for the same reason.
#[verifier::spinoff_prover]
pub proof fn law_what_a_sweep_asks_for(s: ReassemblerView, actions: Seq<ActionView>, now: u64)
    requires
        s.sweeps(actions, now),
    ensures
        forall|cid: u32| #[trigger]
            s.is_idle(cid, now) ==> actions.contains(ActionView::Teardown { cid })
                && actions.contains(ActionView::Send(FrameView::rst(cid))),
        forall|cid: u32| #[trigger]
            s.is_stale(cid, now) ==> actions.contains(ActionView::Send(FrameView::rst(cid))) && (
            s.pending[cid].connecting ==> actions.contains(ActionView::CancelHandshake { cid })),
        forall|i: int|
            0 <= i < actions.len() ==> is_about_the_swept(s, #[trigger] actions[i], now),
        exists|n: int| 0 <= n <= actions.len() && #[trigger] is_cut(s, actions, n, now),
{
    let (idle, stale) = choose|idle: Seq<u32>, stale: Seq<u32>|
        s.lists_idle(idle, now) && s.lists_stale(stale, now) && actions == #[trigger] s.idle_actions(
            idle,
        ) + #[trigger] s.stale_actions(stale);
    let a = s.idle_actions(idle);
    let b = s.stale_actions(stale);
    assert forall|i: int| 0 <= i < idle.len() implies s.is_idle(#[trigger] idle[i], now) by {
        assert(idle.contains(idle[i]));
    }
    assert forall|i: int| 0 <= i < stale.len() implies s.is_stale(#[trigger] stale[i], now) by {
        assert(stale.contains(stale[i]));
    }
    lemma_idle_actions(s, idle, now);
    lemma_stale_actions(s, stale, now);
    lemma_idle_once(s, idle, now);
    lemma_stale_once(s, stale, now);
    assert forall|cid: u32| #[trigger] s.is_idle(cid, now) implies actions.contains(
        ActionView::Teardown { cid },
    ) && actions.contains(ActionView::Send(FrameView::rst(cid))) by {
        assert(idle.contains(cid));
        let x = ActionView::Teardown { cid };
        let y = ActionView::Send(FrameView::rst(cid));
        assert(a.contains(x) && a.contains(y));
        assert(actions[a.index_of(x)] == x);
        assert(actions[a.index_of(y)] == y);
    }
    assert forall|cid: u32| #[trigger] s.is_stale(cid, now) implies actions.contains(
        ActionView::Send(FrameView::rst(cid)),
    ) && (s.pending[cid].connecting ==> actions.contains(ActionView::CancelHandshake { cid })) by {
        assert(stale.contains(cid));
        let x = ActionView::Send(FrameView::rst(cid));
        let y = ActionView::CancelHandshake { cid };
        assert(b.contains(x));
        assert(actions[a.len() + b.index_of(x)] == x);
        if s.pending[cid].connecting {
            assert(b.contains(y));
            assert(actions[a.len() + b.index_of(y)] == y);
        }
    }
    assert forall|i: int| 0 <= i < actions.len() implies is_about_the_swept(
        s,
        #[trigger] actions[i],
        now,
    ) by {
        if i < a.len() {
            assert(actions[i] == a[i]);
            assert(is_about_the_idle(s, a[i], now));
        } else {
            assert(actions[i] == b[i - a.len()]);
            assert(is_about_the_stale(s, b[i - a.len()], now));
        }
    }
    lemma_cut(s, a, b, now);
    assert(is_cut(s, actions, a.len() as int, now));
}

/// The actions for idle connections, then those for stale frames, can be told apart.
#[verifier::spinoff_prover]
proof fn lemma_cut(s: ReassemblerView, a: Seq<ActionView>, b: Seq<ActionView>, now: u64)
    requires
        a.no_duplicates(),
        b.no_duplicates(),
        forall|i: int|
            0 <= i < a.len() ==> is_about_the_idle(s, #[trigger] a[i], now) && is_told_next(a, i),
        forall|i: int|
            0 <= i < b.len() ==> is_about_the_stale(s, #[trigger] b[i], now) && is_told_next(b, i),
    ensures
        is_cut(s, a + b, a.len() as int, now),
{
    let actions = a + b;
    let n = a.len() as int;
    assert(actions.take(n) =~= a);
    assert(actions.skip(n) =~= b);
    assert forall|i: int| 0 <= i < n implies is_about_the_idle(
        s,
        #[trigger] actions[i],
        now,
    ) && is_told_next(actions, i) by {
        assert(actions[i] == a[i]);
        if a[i] is Teardown {
            assert(actions[i + 1] == a[i + 1]);
        }
    }
    assert forall|i: int| n <= i < actions.len() implies is_about_the_stale(
        s,
        #[trigger] actions[i],
        now,
    ) && is_told_next(actions, i) by {
        assert(actions[i] == b[i - n]);
        if b[i - n] is CancelHandshake {
            assert(actions[i + 1] == b[i - n + 1]);
        }
    }
}

/// The first `n` actions of a sweep are about idle connections, the others about stale
/// frames, each once, and the other end is told last.
pub open spec fn is_cut(s: ReassemblerView, actions: Seq<ActionView>, n: int, now: u64) -> bool {
    &&& actions.take(n).no_duplicates()
    &&& actions.skip(n).no_duplicates()
    &&& forall|i: int|
        0 <= i < n ==> is_about_the_idle(s, #[trigger] actions[i], now) && is_told_next(actions, i)
    &&& forall|i: int|
        n <= i < actions.len() ==> is_about_the_stale(s, #[trigger] actions[i], now)
            && is_told_next(actions, i)
}

/// An action tears an idle connection down, or tells its other end.
pub open spec fn is_about_the_idle(s: ReassemblerView, a: ActionView, now: u64) -> bool {
    match a {
        ActionView::Send(f) => f == FrameView::rst(f.conn_id) && s.is_idle(f.conn_id, now),
        ActionView::Teardown { cid } => s.is_idle(cid, now),
        _ => false,
    }
}

/// An action aborts an attempt to connect that frames have waited for too long, or tells
/// the other end.
pub open spec fn is_about_the_stale(s: ReassemblerView, a: ActionView, now: u64) -> bool {
    match a {
        ActionView::Send(f) => f == FrameView::rst(f.conn_id) && s.is_stale(f.conn_id, now),
        ActionView::CancelHandshake { cid } => s.is_stale(cid, now) && s.pending[cid].connecting,
        _ => false,
    }
}

/// What is torn down or aborted is told to the other end right after it.
pub open spec fn is_told_next(actions: Seq<ActionView>, i: int) -> bool {
    &&& actions[i] is Teardown ==> i + 1 < actions.len() && actions[i + 1] == ActionView::Send(
        FrameView::rst(actions[i]->Teardown_cid),
    )
    &&& actions[i] is CancelHandshake ==> i + 1 < actions.len() && actions[i + 1]
        == ActionView::Send(FrameView::rst(actions[i]->CancelHandshake_cid))
}

/// An action is about a connection, or frames, that a sweep removes.
pub open spec fn is_about_the_swept(s: ReassemblerView, a: ActionView, now: u64) -> bool {
    match a {
        ActionView::Send(f) => f == FrameView::rst(f.conn_id) && (s.is_idle(f.conn_id, now)
            || s.is_stale(f.conn_id, now)),
        ActionView::Teardown { cid } => s.is_idle(cid, now),
        ActionView::CancelHandshake { cid } => s.is_stale(cid, now) && s.pending[cid].connecting,
        _ => false,
    }
}

spec fn whose(a: ActionView) -> u32 {
    match a {
        ActionView::Send(f) => f.conn_id,
        ActionView::Teardown { cid } => cid,
        ActionView::CancelHandshake { cid } => cid,
        _ => 0,
    }
}

proof fn lemma_idle_once(s: ReassemblerView, cids: Seq<u32>, now: u64)
    requires
        cids.no_duplicates(),
        forall|i: int| 0 <= i < cids.len() ==> s.is_idle(#[trigger] cids[i], now),
    ensures
        s.idle_actions(cids).no_duplicates(),
        forall|i: int|
            0 <= i < s.idle_actions(cids).len() ==> is_about_the_idle(
                s,
                #[trigger] s.idle_actions(cids)[i],
                now,
            ) && is_told_next(s.idle_actions(cids), i) && cids.contains(whose(s.idle_actions(cids)[i])),
    decreases cids.len(),
{
    if cids.len() > 0 {
        let less = cids.drop_last();
        assert forall|i: int| 0 <= i < less.len() implies s.is_idle(#[trigger] less[i], now) by {
            assert(less[i] == cids[i]);
        }
        lemma_idle_once(s, less, now);
        assert(s.is_idle(cids[cids.len() - 1], now));
        let before = s.idle_actions(less);
        let all = s.idle_actions(cids);
        assert(!less.contains(cids.last())) by {
            if less.contains(cids.last()) {
                let i = less.index_of(cids.last());
                assert(cids[i] == cids[cids.len() - 1]);
            }
        }
        assert forall|i: int| 0 <= i < all.len() implies is_about_the_idle(
            s,
            #[trigger] all[i],
            now,
        ) && is_told_next(all, i) && cids.contains(
            whose(all[i]),
        ) by {
            if i < before.len() {
                assert(all[i] == before[i]);
                assert(is_told_next(before, i));
                if i + 1 < before.len() {
                    assert(all[i + 1] == before[i + 1]);
                }
                let j = less.index_of(whose(before[i]));
                assert(cids[j] == less[j]);
            } else {
                assert(whose(all[i]) == cids.last());
                assert(cids[cids.len() - 1] == cids.last());
            }
        }
        assert forall|i: int, j: int| 0 <= i < j < all.len() implies all[i] != all[j] by {
            if j < before.len() {
                assert(all[i] == before[i] && all[j] == before[j]);
            } else if i < before.len() {
                assert(all[i] == before[i]);
                assert(less.contains(whose(before[i])));
                assert(whose(all[j]) == cids.last());
            }
        }
    }
}

proof fn lemma_idle_actions(s: ReassemblerView, cids: Seq<u32>, now: u64)
    requires
        forall|i: int| 0 <= i < cids.len() ==> s.is_idle(#[trigger] cids[i], now),
    ensures
        forall|cid: u32| #[trigger]
            cids.contains(cid) ==> s.idle_actions(cids).contains(ActionView::Teardown { cid })
                && s.idle_actions(cids).contains(ActionView::Send(FrameView::rst(cid))),
    decreases cids.len(),
{
    if cids.len() > 0 {
        let less = cids.drop_last();
        assert forall|i: int| 0 <= i < less.len() implies s.is_idle(#[trigger] less[i], now) by {
            assert(less[i] == cids[i]);
        }
        lemma_idle_actions(s, less, now);
        assert(s.is_idle(cids[cids.len() - 1], now));
        let before = s.idle_actions(less);
        let all = s.idle_actions(cids);
        assert forall|cid: u32| #[trigger] cids.contains(cid) implies all.contains(
            ActionView::Teardown { cid },
        ) && all.contains(ActionView::Send(FrameView::rst(cid))) by {
            let x = ActionView::Teardown { cid };
            let y = ActionView::Send(FrameView::rst(cid));
            if cid == cids.last() {
                assert(all[all.len() - 2] == x);
                assert(all[all.len() - 1] == y);
            } else {
                assert(less[cids.index_of(cid)] == cid);
                assert(less.contains(cid));
                assert(all[before.index_of(x)] == x);
                assert(all[before.index_of(y)] == y);
            }
        }
    }
}

proof fn lemma_stale_once(s: ReassemblerView, cids: Seq<u32>, now: u64)
    requires
        cids.no_duplicates(),
        forall|i: int| 0 <= i < cids.len() ==> s.is_stale(#[trigger] cids[i], now),
    ensures
        s.stale_actions(cids).no_duplicates(),
        forall|i: int|
            0 <= i < s.stale_actions(cids).len() ==> is_about_the_stale(
                s,
                #[trigger] s.stale_actions(cids)[i],
                now,
            ) && is_told_next(s.stale_actions(cids), i) && cids.contains(whose(s.stale_actions(cids)[i])),
    decreases cids.len(),
{
    if cids.len() > 0 {
        let less = cids.drop_last();
        assert forall|i: int| 0 <= i < less.len() implies s.is_stale(#[trigger] less[i], now) by {
            assert(less[i] == cids[i]);
        }
        lemma_stale_once(s, less, now);
        assert(s.is_stale(cids[cids.len() - 1], now));
        let before = s.stale_actions(less);
        let all = s.stale_actions(cids);
        assert(!less.contains(cids.last())) by {
            if less.contains(cids.last()) {
                let i = less.index_of(cids.last());
                assert(cids[i] == cids[cids.len() - 1]);
            }
        }
        assert forall|i: int| 0 <= i < all.len() implies is_about_the_stale(
            s,
            #[trigger] all[i],
            now,
        ) && is_told_next(all, i) && cids.contains(
            whose(all[i]),
        ) by {
            if i < before.len() {
                assert(all[i] == before[i]);
                assert(is_told_next(before, i));
                if i + 1 < before.len() {
                    assert(all[i + 1] == before[i + 1]);
                }
                let j = less.index_of(whose(before[i]));
                assert(cids[j] == less[j]);
            } else {
                assert(whose(all[i]) == cids.last());
                assert(cids[cids.len() - 1] == cids.last());
            }
        }
        assert forall|i: int, j: int| 0 <= i < j < all.len() implies all[i] != all[j] by {
            if j < before.len() {
                assert(all[i] == before[i] && all[j] == before[j]);
            } else if i < before.len() {
                assert(all[i] == before[i]);
                assert(less.contains(whose(before[i])));
                assert(whose(all[j]) == cids.last());
            }
        }
    }
}

proof fn lemma_stale_actions(s: ReassemblerView, cids: Seq<u32>, now: u64)
    requires
        forall|i: int| 0 <= i < cids.len() ==> s.is_stale(#[trigger] cids[i], now),
    ensures
        forall|cid: u32| #[trigger]
            cids.contains(cid) ==> s.stale_actions(cids).contains(
                ActionView::Send(FrameView::rst(cid)),
            ) && (s.pending[cid].connecting ==> s.stale_actions(cids).contains(
                ActionView::CancelHandshake { cid },
            )),
    decreases cids.len(),
{
    if cids.len() > 0 {
        let less = cids.drop_last();
        assert forall|i: int| 0 <= i < less.len() implies s.is_stale(#[trigger] less[i], now) by {
            assert(less[i] == cids[i]);
        }
        lemma_stale_actions(s, less, now);
        assert(s.is_stale(cids[cids.len() - 1], now));
        let before = s.stale_actions(less);
        let all = s.stale_actions(cids);
        assert forall|cid: u32| #[trigger] cids.contains(cid) implies all.contains(
            ActionView::Send(FrameView::rst(cid)),
        ) && (s.pending[cid].connecting ==> all.contains(ActionView::CancelHandshake { cid })) by {
            let x = ActionView::Send(FrameView::rst(cid));
            let y = ActionView::CancelHandshake { cid };
            if cid == cids.last() {
                assert(all[all.len() - 1] == x);
                if s.pending[cid].connecting {
                    assert(all[all.len() - 2] == y);
                }
            } else {
                assert(less[cids.index_of(cid)] == cid);
                assert(less.contains(cid));
                assert(all[before.index_of(x)] == x);
                if s.pending[cid].connecting {
                    assert(all[before.index_of(y)] == y);
                }
            }
        }
    }
}

// ── Lost frames and responses ─────────────────────────────────────────

/// A control frame that was lost is sent again as it is; for lost data its connection is
/// reset.
pub proof fn law_each_loss(f: FrameView)
    ensures
        f.flags & 13 != 0 ==> replacement(f) == f,
        f.flags & 13 == 0 ==> replacement(f) == FrameView::rst(f.conn_id),
{
    assert(1u8 | 4u8 | 8u8 == 13) by (bit_vector);
}

/// A datagram that comes back goes to the client whole, behind the address that it came
/// from, unless no frame can carry it.
pub proof fn law_datagrams_come_back(cid: u32, seq: u64, from: SocketAddress, data: Seq<u8>)
    ensures
        ({
            let d = datagram(address_bytes(normal_text(from.ip), from.port)->Some_0, data);
            &&& d.len() <= 65535 ==> response_frame(cid, seq, from, data) == Some(
                FrameView { conn_id: cid, seq, flags: 2, payload: d },
            )
            &&& d.len() > 65535 ==> response_frame(cid, seq, from, data) is None
        }),
{
}

} // verus!
