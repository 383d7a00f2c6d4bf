//! The near end: what each event does to a client's connection, and to nothing else.

use crate::addr::{ip, IpAddress, SocketAddress};
use crate::frame::FrameView;
use crate::reorder::{entry_cap, fresh};
use crate::splitter::{
    backoff, farewell, fin_is_due, fin_sweep, named_client, ActionView, ClientView, CloseReason,
    Grace, SplitterView, CLOSE_GRACE_MAX, CLOSE_QUIET_TIMEOUT, DATAGRAM_ATTEMPTS,
    MAX_CONCURRENT_CONNS, MAX_ID_DRAWS, TIME_WAIT_TTL,
};
use vstd::prelude::*;

verus! {

/// The limits of the near end, in plain numbers; times are in nanoseconds.
pub proof fn law_near_limits()
    ensures
        TIME_WAIT_TTL == 60_000_000_000,
        CLOSE_GRACE_MAX == 15_000_000_000,
        CLOSE_QUIET_TIMEOUT == 60_000_000_000,
        MAX_CONCURRENT_CONNS == 4096,
        MAX_ID_DRAWS == 1024,
        DATAGRAM_ATTEMPTS == 3,
{
}

// ── One connection ────────────────────────────────────────────────────

/// A new connection has carried nothing, waits for number 1, and is looked after.
pub proof fn law_new_client(token: u64, window: nat, is_udp: bool, now: u64)
    ensures
        ({
            let c = ClientView::new(token, window, is_udp, now);
            &&& c.token == token && c.is_udp == is_udp
            &&& c.reorder == fresh(window, entry_cap(window))
            &&& !c.fin_received && c.fin_seq == 0 && !c.grace_waiting && c.handler_alive
            &&& c.created_at == now && c.last_active == now
            &&& c.bytes_sent == 0 && c.bytes_recv == 0 && c.frames_sent == 0 && c.frames_recv == 0
        }),
{
}

/// A frame that is carried, in whichever direction, is counted and is activity; nothing
/// else about the connection changes.
pub proof fn law_frames_are_activity(c: ClientView, len: nat, now: u64)
    ensures
        c.received(len, now) == (ClientView {
            bytes_recv: c.bytes_recv.wrapping_add(len as u64),
            frames_recv: c.frames_recv.wrapping_add(1),
            last_active: now,
            ..c
        }),
        c.sent(len, now) == (ClientView {
            bytes_sent: c.bytes_sent.wrapping_add(len as u64),
            frames_sent: c.frames_sent.wrapping_add(1),
            last_active: now,
            ..c
        }),
        c.traffic().bytes_sent == c.bytes_sent && c.traffic().bytes_recv == c.bytes_recv,
        c.traffic().frames_sent == c.frames_sent && c.traffic().frames_recv == c.frames_recv,
        c.traffic().created_at == c.created_at,
{
}

/// Before the other end has ended, a connection that is looked after is swept when it has
/// been silent for more than 300 whole seconds, or 60 for datagrams, and not before: it
/// is the last frame that counts, not how long the connection has been there.
pub proof fn law_only_silence_is_swept(c: ClientView, now: u64)
    requires
        c.handler_alive,
        !c.fin_received,
    ensures
        !c.is_udp ==> (c.is_expired(now) <==> now >= c.last_active + 301_000_000_000),
        c.is_udp ==> (c.is_expired(now) <==> now >= c.last_active + 61_000_000_000),
{
}

/// After the other end has ended, a connection that is looked after is swept when it has
/// been silent for more than 30 whole seconds with its response complete, or for more
/// than 300 without; but never while its handler waits for the rest of the response.
pub proof fn law_ended_connections_are_swept(c: ClientView, now: u64)
    requires
        c.handler_alive,
        c.fin_received,
    ensures
        c.grace_waiting ==> !c.is_expired(now),
        !c.grace_waiting && c.reorder.expected >= c.fin_seq ==> (c.is_expired(now) <==> now
            >= c.last_active + 31_000_000_000),
        !c.grace_waiting && c.reorder.expected < c.fin_seq ==> (c.is_expired(now) <==> now
            >= c.last_active + 301_000_000_000),
{
}

/// A connection that nobody looks after is swept.
pub proof fn law_orphans_are_swept(c: ClientView, now: u64)
    requires
        !c.handler_alive,
    ensures
        c.is_expired(now),
{
}

/// A connection that carried a frame this very moment is not swept while it is looked
/// after, whatever came before.
pub proof fn law_traffic_keeps_a_connection(c: ClientView, len: nat, now: u64)
    requires
        c.handler_alive,
    ensures
        !c.received(len, now).is_expired(now),
        !c.sent(len, now).is_expired(now),
{
}

/// When an ended connection is swept, in seconds of silence.
pub proof fn law_sweep_after_the_end(complete: bool, idle: nat, handler_alive: bool)
    ensures
        handler_alive && complete ==> (fin_sweep(complete, idle, handler_alive) <==> idle > 30),
        handler_alive && !complete ==> (fin_sweep(complete, idle, handler_alive) <==> idle > 300),
        !handler_alive ==> (fin_sweep(complete, idle, handler_alive) <==> idle > 30),
{
}

// ── Sweeping ──────────────────────────────────────────────────────────

/// A sweep removes the connections that are to be swept and no others, and leaves those
/// as they are. The ids of removed ones rest from now on; an id that rests is free again
/// after 60 seconds, and not before.
pub proof fn law_what_a_sweep_removes(s: SplitterView, cid: u32, now: u64)
    ensures
        ({
            let t = s.swept(now);
            let goes = s.conns.contains_key(cid) && s.conns[cid].is_expired(now);
            &&& t.conns.contains_key(cid) <==> s.conns.contains_key(cid) && !goes
            &&& t.conns.contains_key(cid) ==> t.conns[cid] == s.conns[cid]
            &&& t.time_wait.contains_key(cid) <==> goes || (s.time_wait.contains_key(cid) && now
                < s.time_wait[cid] + 60_000_000_000)
            &&& goes ==> t.time_wait[cid] == now
            &&& t.time_wait.contains_key(cid) && !goes ==> t.time_wait[cid] == s.time_wait[cid]
            &&& t.resets == s.resets && t.window == s.window && t.next_token == s.next_token
        }),
{
}

/// What a sweep asks for: for each connection that it removes, a word to the handler if
/// there is one, right before an RST to the other end, each once; and nothing else.
pub proof fn law_what_a_sweep_asks_for(s: SplitterView, actions: Seq<ActionView>, now: u64)
    requires
        s.sweeps(actions, now),
    ensures
        actions.no_duplicates(),
        forall|cid: u32|
            s.conns.contains_key(cid) && #[trigger] s.conns[cid].is_expired(now)
                ==> actions.contains(ActionView::Send(FrameView::rst(cid))) && (
            s.conns[cid].handler_alive ==> actions.contains(
                ActionView::Stop { cid, token: s.conns[cid].token, reset: false },
            )),
        forall|i: int|
            0 <= i < actions.len() ==> is_about_the_swept(s, #[trigger] actions[i], now),
        forall|i: int|
            0 <= i < actions.len() && (#[trigger] actions[i]) is Stop ==> i + 1 < actions.len()
                && actions[i + 1] == ActionView::Send(FrameView::rst(actions[i]->Stop_cid)),
{
    let cids = choose|cids: Seq<u32>|
        s.lists_expired(cids, now) && actions == #[trigger] s.expired_actions(cids);
    assert forall|i: int| 0 <= i < cids.len() implies s.is_expired(#[trigger] cids[i], now) by {
        assert(cids.contains(cids[i]));
    }
    lemma_expired_actions(s, cids, now);
    assert forall|cid: u32|
        s.conns.contains_key(cid) && #[trigger] s.conns[cid].is_expired(
            now,
        ) implies actions.contains(ActionView::Send(FrameView::rst(cid))) && (
    s.conns[cid].handler_alive ==> actions.contains(
        ActionView::Stop { cid, token: s.conns[cid].token, reset: false },
    )) by {
        assert(s.is_expired(cid, now));
        assert(cids.contains(cid));
        lemma_expired_has(s, cids, cid);
    }
}

/// An action resets a connection that is swept at the other end, or stops its handler.
pub open spec fn is_about_the_swept(s: SplitterView, a: ActionView, now: u64) -> bool {
    match a {
        ActionView::Send(f) => s.conns.contains_key(f.conn_id) && s.conns[f.conn_id].is_expired(now)
            && f == FrameView::rst(f.conn_id),
        ActionView::Stop { cid, token, reset } => s.conns.contains_key(cid)
            && s.conns[cid].is_expired(now) && s.conns[cid].handler_alive && token
            == s.conns[cid].token && !reset,
        _ => false,
    }
}

spec fn whose(a: ActionView) -> u32 {
    match a {
        ActionView::Send(f) => f.conn_id,
        ActionView::Stop { cid, token, reset } => cid,
        ActionView::Deliver { cid, token, chunks, count } => cid,
        ActionView::Wake { cid, token } => cid,
    }
}

proof fn lemma_expired_actions(s: SplitterView, cids: Seq<u32>, now: u64)
    requires
        cids.no_duplicates(),
        forall|i: int| 0 <= i < cids.len() ==> s.is_expired(#[trigger] cids[i], now),
    ensures
        s.expired_actions(cids).no_duplicates(),
        forall|i: int|
            0 <= i < s.expired_actions(cids).len() ==> is_about_the_swept(
                s,
                #[trigger] s.expired_actions(cids)[i],
                now,
            ) && cids.contains(whose(s.expired_actions(cids)[i])),
        forall|i: int|
            0 <= i < s.expired_actions(cids).len() && (#[trigger] s.expired_actions(
                cids,
            )[i]) is Stop ==> i + 1 < s.expired_actions(cids).len() && s.expired_actions(cids)[i
                + 1] == ActionView::Send(
                FrameView::rst(s.expired_actions(cids)[i]->Stop_cid),
            ),
    decreases cids.len(),
{
    if cids.len() > 0 {
        let less = cids.drop_last();
        let cid = cids.last();
        assert forall|i: int| 0 <= i < less.len() implies s.is_expired(#[trigger] less[i], now) by {
            assert(less[i] == cids[i]);
        }
        lemma_expired_actions(s, less, now);
        let before = s.expired_actions(less);
        let all = s.expired_actions(cids);
        assert(s.is_expired(cids[cids.len() - 1], now));
        assert(!less.contains(cid)) by {
            if less.contains(cid) {
                let i = less.index_of(cid);
                assert(cids[i] == cids[cids.len() - 1]);
            }
        }
        assert forall|i: int| 0 <= i < all.len() implies is_about_the_swept(
            s,
            #[trigger] all[i],
            now,
        ) && cids.contains(whose(all[i])) by {
            if i < before.len() {
                assert(all[i] == before[i]);
                let j = less.index_of(whose(before[i]));
                assert(cids[j] == less[j]);
            } else {
                assert(whose(all[i]) == cid);
                assert(cids[cids.len() - 1] == cid);
            }
        }
        assert forall|i: int|
            0 <= i < all.len() && (#[trigger] all[i]) is Stop implies i + 1 < all.len() && all[i
            + 1] == ActionView::Send(FrameView::rst(all[i]->Stop_cid)) by {
            if i < before.len() {
                assert(all[i] == before[i]);
                assert(all[i + 1] == before[i + 1]);
            }
        }
        assert forall|i: int, j: int| 0 <= i < j < all.len() implies all[i] != all[j] by {
            if j < before.len() {
                assert(all[i] == before[i] && all[j] == before[j]);
            } else if i < before.len() {
                assert(all[i] == before[i]);
                assert(less.contains(whose(before[i])));
                assert(whose(all[j]) == cid);
            }
        }
    }
}

proof fn lemma_expired_has(s: SplitterView, cids: Seq<u32>, cid: u32)
    requires
        cids.contains(cid),
        s.conns.contains_key(cid),
    ensures
        s.expired_actions(cids).contains(ActionView::Send(FrameView::rst(cid))),
        s.conns[cid].handler_alive ==> s.expired_actions(cids).contains(
            ActionView::Stop { cid, token: s.conns[cid].token, reset: false },
        ),
    decreases cids.len(),
{
    let rst = ActionView::Send(FrameView::rst(cid));
    let stop = ActionView::Stop { cid, token: s.conns[cid].token, reset: false };
    let all = s.expired_actions(cids);
    if cids.last() == cid {
        assert(all[all.len() - 1] == rst);
        if s.conns[cid].handler_alive {
            assert(all[all.len() - 2] == stop);
        }
    } else {
        let less = cids.drop_last();
        let i = cids.index_of(cid);
        assert(less[i] == cid);
        lemma_expired_has(s, less, cid);
        let before = s.expired_actions(less);
        assert(all[before.index_of(rst)] == rst);
        if s.conns[cid].handler_alive {
            assert(all[before.index_of(stop)] == stop);
        }
    }
}

// ── Opening and closing ───────────────────────────────────────────────

/// An id may be given to a new connection when it is not 0, is not in use and does not
/// rest; and to no other.
pub proof fn law_free_ids(s: SplitterView, cid: u32)
    ensures
        s.is_free(cid) <==> cid != 0 && !s.conns.contains_key(cid) && !s.time_wait.contains_key(cid),
{
}

/// An event is about a connection when that is still there under the same token.
pub proof fn law_tokens(s: SplitterView, cid: u32, token: u64)
    ensures
        s.is_current(cid, token) <==> s.conns.contains_key(cid) && s.conns[cid].token == token,
{
}

/// A connection that is opened is there, new, under a token of its own; all others stay
/// as they are.
pub proof fn law_opening(s: SplitterView, cid: u32, is_udp: bool, now: u64)
    ensures
        ({
            let t = s.open(cid, is_udp, now);
            &&& t.conns == s.conns.insert(
                cid,
                ClientView::new(s.next_token, s.window, is_udp, now),
            )
            &&& t.next_token == s.next_token.wrapping_add(1)
            &&& t.time_wait == s.time_wait && t.resets == s.resets && t.window == s.window
        }),
{
}

/// A connection that its handler has finished with is gone and its id rests, unless the
/// id belongs to another one by now, which stays. The other end of an association is told.
pub proof fn law_closing(s: SplitterView, cid: u32, token: u64, is_udp: bool, now: u64)
    ensures
        ({
            let (t, actions) = s.closed(cid, token, is_udp, now);
            let meant = s.conns.contains_key(cid) && s.conns[cid].token == token;
            &&& t.conns == (if meant {
                s.conns.remove(cid)
            } else {
                s.conns
            })
            &&& t.time_wait == s.time_wait.insert(cid, now)
            &&& t.resets == s.resets && t.window == s.window && t.next_token == s.next_token
            &&& actions == (if is_udp {
                seq![ActionView::Send(FrameView::rst(cid))]
            } else {
                Seq::empty()
            })
        }),
{
}

/// A connection that is given up before it began is forgotten, if it is the one that is
/// meant, and its id does not rest.
pub proof fn law_aborting(s: SplitterView, cid: u32, token: u64)
    ensures
        ({
            let t = s.without(cid, token);
            let meant = s.conns.contains_key(cid) && s.conns[cid].token == token;
            &&& t.conns == (if meant {
                s.conns.remove(cid)
            } else {
                s.conns
            })
            &&& t.time_wait == s.time_wait && t.resets == s.resets && t.window == s.window
            &&& t.next_token == s.next_token
        }),
{
}

/// What is reported of a connection changes that one, if it is the one that is meant, and
/// nothing else.
pub proof fn law_reports_change_one_connection(
    s: SplitterView,
    cid: u32,
    token: u64,
    change: spec_fn(ClientView) -> ClientView,
)
    ensures
        ({
            let t = s.updated(cid, token, change);
            let meant = s.conns.contains_key(cid) && s.conns[cid].token == token;
            &&& meant ==> t.conns == s.conns.insert(cid, change(s.conns[cid]))
            &&& !meant ==> t.conns == s.conns
            &&& t.time_wait == s.time_wait && t.resets == s.resets && t.window == s.window
            &&& t.next_token == s.next_token
        }),
{
}

/// A reset: the connection is gone, its id rests, its handler is told if there is one, and
/// so is the other end; it is counted. All others stay as they are.
pub proof fn law_resetting(s: SplitterView, cid: u32, now: u64)
    ensures
        ({
            let (t, actions) = s.reset(cid, now);
            let rst = ActionView::Send(FrameView::rst(cid));
            &&& t.conns == s.conns.remove(cid)
            &&& t.time_wait == s.time_wait.insert(cid, now)
            &&& t.resets == s.resets.wrapping_add(1)
            &&& t.window == s.window && t.next_token == s.next_token
            &&& s.conns.contains_key(cid) ==> actions == seq![
                ActionView::Stop { cid, token: s.conns[cid].token, reset: true },
                rst,
            ]
            &&& !s.conns.contains_key(cid) ==> actions == seq![rst]
        }),
{
    assert(s.reset(cid, now).1 =~= if s.conns.contains_key(cid) {
        seq![
            ActionView::Stop { cid, token: s.conns[cid].token, reset: true },
            ActionView::Send(FrameView::rst(cid)),
        ]
    } else {
        seq![ActionView::Send(FrameView::rst(cid))]
    });
}

// ── Frames ────────────────────────────────────────────────────────────

/// Of several flags one counts: data before an end, an end before a reset. A frame without
/// any of these, a SYN among them, is ignored.
pub proof fn law_which_flag_counts(s: SplitterView, f: FrameView, now: u64)
    ensures
        f.flags & 2 != 0 ==> s.on_frame(f, now) == s.on_frame(FrameView { flags: 2, ..f }, now),
        f.flags & 2 == 0 && f.flags & 4 != 0 ==> s.on_frame(f, now) == s.on_frame(
            FrameView { flags: 4, ..f },
            now,
        ),
        f.flags & 2 == 0 && f.flags & 4 == 0 && f.flags & 8 != 0 ==> s.on_frame(f, now)
            == s.on_frame(FrameView { flags: 8, ..f }, now),
        f.flags & 2 == 0 && f.flags & 4 == 0 && f.flags & 8 == 0 ==> s.on_frame(f, now) == (
            s,
            Seq::<ActionView>::empty(),
        ),
{
    assert(2u8 & 2 != 0 && 4u8 & 2 == 0 && 4u8 & 4 != 0 && 8u8 & 2 == 0 && 8u8 & 4 == 0 && 8u8 & 8
        != 0) by (bit_vector);
}

/// Data on a connection: what the window delivers is handed to the client, with the size of
/// the frame that brought it. A repeated frame asks for nothing; one that overflows the
/// window resets the connection. Data for no connection is answered with an RST.
pub proof fn law_inbound_data(s: SplitterView, f: FrameView, now: u64)
    requires
        f.flags == 2,
    ensures
        ({
            let cid = f.conn_id;
            let c = s.conns[cid];
            let there = s.conns.contains_key(cid);
            let (w, r) = c.reorder.push(f.seq, f.payload);
            let (t, actions) = s.on_frame(f, now);
            let token = c.token;
            let count = f.payload.len() as u64;
            &&& there && c.is_udp ==> t == s && actions == seq![
                ActionView::Deliver { cid, token, chunks: seq![f.payload], count },
            ]
            &&& there && !c.is_udp && r.accepted ==> actions == seq![
                ActionView::Deliver { cid, token, chunks: r.ready, count },
            ] && t == (SplitterView {
                conns: s.conns.insert(cid, ClientView { reorder: w, ..c }),
                ..s
            })
            &&& there && !c.is_udp && r.overflow ==> (t, actions) == s.reset(cid, now)
            &&& there && !c.is_udp && !r.accepted && !r.overflow ==> t == s && actions.len() == 0
            &&& !there ==> t == s && actions == seq![ActionView::Send(FrameView::rst(cid))]
        }),
{
    assert(2u8 & 2 != 0) by (bit_vector);
}

/// The end of a response: it is noted with its number, the handler is woken, and the
/// connection stays. Associations and unknown ids have no such thing.
pub proof fn law_inbound_end(s: SplitterView, f: FrameView, now: u64)
    requires
        f.flags == 4,
    ensures
        ({
            let cid = f.conn_id;
            let c = s.conns[cid];
            let (t, actions) = s.on_frame(f, now);
            &&& s.conns.contains_key(cid) && !c.is_udp ==> actions == seq![
                ActionView::Wake { cid, token: c.token },
            ] && t == (SplitterView {
                conns: s.conns.insert(
                    cid,
                    ClientView { fin_received: true, fin_seq: f.seq, ..c },
                ),
                ..s
            })
            &&& !(s.conns.contains_key(cid) && !c.is_udp) ==> t == s && actions.len() == 0
        }),
{
    assert(4u8 & 2 == 0 && 4u8 & 4 != 0) by (bit_vector);
}

/// A reset from the other end resets the connection.
pub proof fn law_inbound_reset(s: SplitterView, f: FrameView, now: u64)
    requires
        f.flags == 8,
    ensures
        s.on_frame(f, now) == s.reset(f.conn_id, now),
{
    assert(8u8 & 2 == 0 && 8u8 & 4 == 0 && 8u8 & 8 != 0) by (bit_vector);
}

/// What came of handing chunks to a client: taken, they count and are activity; refused,
/// a TCP connection is reset, and an association only loses them, and was active. News of
/// a connection that is gone changes nothing.
pub proof fn law_handed_to_the_client(
    s: SplitterView,
    cid: u32,
    token: u64,
    count: u64,
    ok: bool,
    now: u64,
)
    ensures
        ({
            let (t, actions) = s.on_delivered(cid, token, count, ok, now);
            let c = s.conns[cid];
            let meant = s.conns.contains_key(cid) && c.token == token;
            &&& !meant ==> t == s && actions.len() == 0
            &&& meant && ok ==> actions.len() == 0 && t == (SplitterView {
                conns: s.conns.insert(cid, c.received(count as nat, now)),
                ..s
            })
            &&& meant && !ok && c.is_udp ==> actions.len() == 0 && t == (SplitterView {
                conns: s.conns.insert(cid, ClientView { last_active: now, ..c }),
                ..s
            })
            &&& meant && !ok && !c.is_udp ==> (t, actions) == s.reset(cid, now)
        }),
{
}

/// A connection that lost no data on a dying tunnel is not touched: of its frames at most
/// control frames were lost, and these are sent again.
pub proof fn law_losses_touch_no_one_else(s: SplitterView, lost: Seq<FrameView>, cid: u32, now: u64)
    requires
        s.conns.contains_key(cid),
        forall|i: int|
            0 <= i < lost.len() && (#[trigger] lost[i]).conn_id == cid ==> lost[i].flags & 13 != 0,
    ensures
        s.on_lost(lost, now).0.conns.contains_key(cid),
        s.on_lost(lost, now).0.conns[cid] == s.conns[cid],
        s.on_lost(lost, now).0.time_wait.contains_key(cid) == s.time_wait.contains_key(cid),
    decreases lost.len(),
{
    assert(1u8 | 4u8 | 8u8 == 13) by (bit_vector);
    if lost.len() > 0 {
        let less = lost.drop_last();
        assert forall|i: int|
            0 <= i < less.len() && (#[trigger] less[i]).conn_id == cid implies less[i].flags & 13
            != 0 by {
            assert(less[i] == lost[i]);
        }
        law_losses_touch_no_one_else(s, less, cid, now);
        let f = lost[lost.len() - 1];
        assert(f.conn_id == cid ==> f.flags & 13 != 0);
    }
}

/// What is done about one more lost frame: a control frame is sent again as it is; lost
/// data resets its connection, if that is still there.
pub proof fn law_each_loss(s: SplitterView, lost: Seq<FrameView>, f: FrameView, now: u64)
    ensures
        s.on_lost(Seq::empty(), now) == (s, Seq::<ActionView>::empty()),
        ({
            let (t, done) = s.on_lost(lost, now);
            let (u, all) = s.on_lost(lost.push(f), now);
            &&& f.flags & 13 != 0 ==> u == t && all == done.push(ActionView::Send(f))
            &&& f.flags & 13 == 0 && t.conns.contains_key(f.conn_id) ==> u == t.reset(
                f.conn_id,
                now,
            ).0 && all == done + t.reset(f.conn_id, now).1
            &&& f.flags & 13 == 0 && !t.conns.contains_key(f.conn_id) ==> u == t && all == done
        }),
{
    assert(1u8 | 4u8 | 8u8 == 13) by (bit_vector);
    assert(lost.push(f).drop_last() =~= lost);
}

// ── Waiting for the rest ──────────────────────────────────────────────

/// How long a closing connection waits: until the response is complete; at most 15 seconds
/// after its end was first seen while a part is missing; and without an end until it has
/// been silent for 60 seconds. A connection that is gone is not waited for.
pub proof fn law_waiting_for_the_rest(
    s: SplitterView,
    cid: u32,
    token: u64,
    seen: Option<u64>,
    now: u64,
)
    ensures
        ({
            let c = s.conns[cid];
            let meant = s.conns.contains_key(cid) && c.token == token;
            let g = s.grace(cid, token, seen, now);
            let first = if seen is Some {
                seen->Some_0
            } else {
                now
            };
            &&& !meant ==> g == Grace::Over
            &&& meant && c.fin_received && c.reorder.expected >= c.fin_seq ==> g == Grace::Over
            &&& meant && c.fin_received && c.reorder.expected < c.fin_seq ==> g == (if now >= first
                + 15_000_000_000 {
                Grace::Over
            } else {
                Grace::Wait { fin_seen_at: Some(first) }
            })
            &&& meant && !c.fin_received ==> g == (if now >= c.last_active + 60_000_000_000 {
                Grace::Over
            } else {
                Grace::Wait { fin_seen_at: seen }
            })
        }),
{
}

/// A FIN ends a client's direction when the client has ended it, when reading from it
/// failed and when it was swept; not where a frame is missing, nor after a reset.
pub proof fn law_when_a_fin_is_sent(reason: CloseReason)
    ensures
        fin_is_due(reason) <==> reason != CloseReason::NoTunnel && reason != CloseReason::Reset,
{
}

/// What a handler owes in the end: an RST where a FIN was due and could not be sent, or
/// where a frame is missing; and the rest of the response only to a client that has ended
/// by itself, with a FIN that was sent.
pub proof fn law_what_a_handler_owes(reason: CloseReason, fin_sent: bool)
    ensures
        farewell(reason, fin_sent).grace <==> reason == CloseReason::Eof && fin_sent,
        reason == CloseReason::NoTunnel ==> farewell(reason, fin_sent).rst,
        reason == CloseReason::Reset ==> !farewell(reason, fin_sent).rst,
        reason != CloseReason::NoTunnel && reason != CloseReason::Reset ==> farewell(
            reason,
            fin_sent,
        ).rst == !fin_sent,
{
}

/// The wait before a tunnel is set up again begins with 3 seconds and doubles with each
/// failure in a row, up to 24.
pub proof fn law_waits_double(failures: nat)
    ensures
        backoff(0) == 3,
        2 * backoff(failures) <= 24 ==> backoff(failures + 1) == 2 * backoff(failures),
        2 * backoff(failures) > 24 ==> backoff(failures + 1) == 24,
{
    reveal_with_fuel(backoff, 5);
    lemma_backoff_values(failures);
}

proof fn lemma_backoff_values(n: nat)
    ensures
        backoff(n) == (if n == 0 {
            3nat
        } else if n == 1 {
            6
        } else if n == 2 {
            12
        } else {
            24
        }),
{
    reveal_with_fuel(backoff, 4);
}

/// A UDP association belongs to the address that its request names, whole, unless the
/// address is none, unspecified or without a port.
pub proof fn law_named_clients(address: Seq<char>, port: u16, who: IpAddress)
    requires
        ip(address) == Some(who),
    ensures
        named_client(address, port) == (if port != 0 && who != IpAddress::V4(0) && who
            != IpAddress::V6(0) {
            Some(SocketAddress { ip: who, port })
        } else {
            None
        }),
{
}

/// A name is no address.
pub proof fn law_names_name_no_client(address: Seq<char>, port: u16)
    requires
        ip(address) is None,
    ensures
        named_client(address, port) is None,
{
}

} // verus!
