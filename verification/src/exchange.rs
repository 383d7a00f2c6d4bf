//! Both ends together: a request, its end, and the response.

use crate::clock::span;
use crate::frame::{
    data_frames, flagged, law_syn_round_trip, read_syn, FrameError, FrameView, SynView, FLAG_DATA,
    FLAG_FIN, FLAG_RST, FLAG_SYN, MAX_PENDING_BYTES, MAX_PENDING_CIDS, PROTO_TCP,
};
use crate::reassembler::{
    data_bytes, pending_size, pushes, replay, ActionView, HalfClose, PendingView, ReassemblerView,
    MAX_PENDING_FRAMES_PER_CID,
};
use crate::reorder::{
    arrives, cut_from, entry_cap, fresh, law_delivers_everything, law_delivers_in_order,
    law_what_fits_never_overflows, overflows, run, stream_bytes, ReorderView,
};
use crate::splitter::{
    ActionView as ClientAction, Grace, SplitterView, CLOSE_GRACE_MAX, CLOSE_QUIET_TIMEOUT,
};
use crate::sums::lemma_total_insert;
use vstd::prelude::*;

verus! {

/// The frames of one direction of a TCP connection: the chunks, then the end.
pub open spec fn stream_frames(cid: u32, chunks: Seq<Seq<u8>>) -> Seq<FrameView> {
    data_frames(cid, chunks).push(FrameView::fin(cid, (chunks.len() + 1) as u64))
}

/// The frames of a request: it opens the connection, sends the chunks and ends.
pub open spec fn request_frames(cid: u32, target: SynView, chunks: Seq<Seq<u8>>) -> Seq<FrameView> {
    seq![FrameView::syn(cid, target.wire())] + stream_frames(cid, chunks)
}

/// The frames of a list that says when each one came.
pub open spec fn heard(news: Seq<(FrameView, u64)>) -> Seq<FrameView> {
    news.map_values(|n: (FrameView, u64)| n.0)
}

/// Only frames of this list came, in whatever order and however often each.
pub open spec fn only_of(came: Seq<FrameView>, frames: Seq<FrameView>) -> bool {
    forall|i: int| 0 <= i < came.len() ==> frames.contains(#[trigger] came[i])
}

/// Every frame of this list came.
pub open spec fn all_of(came: Seq<FrameView>, frames: Seq<FrameView>) -> bool {
    forall|i: int| 0 <= i < frames.len() ==> came.contains(#[trigger] frames[i])
}

/// The frames of a list that are no SYN.
pub open spec fn without_syn(frames: Seq<FrameView>) -> Seq<FrameView>
    decreases frames.len(),
{
    if frames.len() == 0 {
        Seq::empty()
    } else if flagged(frames.last().flags, FLAG_SYN) {
        without_syn(frames.drop_last())
    } else {
        without_syn(frames.drop_last()).push(frames.last())
    }
}

/// What is done for a connection towards its target.
#[verifier::ext_equal]
pub enum Egress {
    /// The target is connected to.
    Connect(SynView),
    /// The target gets a chunk to read.
    Write(Seq<u8>),
    /// The target gets to read that there is no more.
    Close,
}

/// Writing some chunks.
pub open spec fn writes(chunks: Seq<Seq<u8>>) -> Seq<Egress> {
    chunks.map_values(|c: Seq<u8>| Egress::Write(c))
}

/// The bytes that a target gets to read.
pub open spec fn written(done: Seq<Egress>) -> Seq<u8>
    decreases done.len(),
{
    if done.len() == 0 {
        Seq::empty()
    } else {
        written(done.drop_last()) + match done.last() {
            Egress::Write(c) => c,
            _ => Seq::empty(),
        }
    }
}

/// The bytes of a list of chunks.
pub open spec fn joined(chunks: Seq<Seq<u8>>) -> Seq<u8>
    decreases chunks.len(),
{
    if chunks.len() == 0 {
        Seq::empty()
    } else {
        joined(chunks.drop_last()) + chunks.last()
    }
}

/// How often a list of actions closes the write half of a connection.
pub open spec fn closings(actions: Seq<ActionView>, cid: u32) -> Seq<Egress>
    decreases actions.len(),
{
    if actions.len() == 0 {
        Seq::empty()
    } else {
        let before = closings(actions.drop_last(), cid);
        if actions.last() == (ActionView::CloseWrite { cid }) {
            before.push(Egress::Close)
        } else {
            before
        }
    }
}

/// A far end whose caller carries out what it asks for on behalf of a connection, and
/// what was done: chunks are queued, all of which the target takes, and the write half
/// is closed.
pub open spec fn carried_out(
    s: ReassemblerView,
    cid: u32,
    actions: Seq<ActionView>,
    now: u64,
) -> (ReassemblerView, Seq<Egress>)
    decreases actions.len(),
{
    if actions.len() == 0 {
        (s, Seq::empty())
    } else {
        let (t, done) = carried_out(s, cid, actions.drop_last(), now);
        match actions.last() {
            ActionView::Connect { cid: to, target } => if to == cid {
                (t, done.push(Egress::Connect(target)))
            } else {
                (t, done)
            },
            ActionView::Deliver { cid: to, token, chunks, count } => if to == cid {
                let (u, more) = t.on_delivered(cid, token, count, true, now);
                (u, done + writes(chunks) + closings(more, cid))
            } else {
                (t, done)
            },
            ActionView::CloseWrite { cid: to } => if to == cid {
                (t, done.push(Egress::Close))
            } else {
                (t, done)
            },
            _ => (t, done),
        }
    }
}

/// A far end after frames of a connection came, and what was done for it.
pub open spec fn far_end(s: ReassemblerView, cid: u32, news: Seq<(FrameView, u64)>) -> (
    ReassemblerView,
    Seq<Egress>,
)
    decreases news.len(),
{
    if news.len() == 0 {
        (s, Seq::empty())
    } else {
        let (t, done) = far_end(s, cid, news.drop_last());
        let (f, now) = news.last();
        let (u, actions) = t.on_frame(f, now);
        let (v, more) = carried_out(u, cid, actions, now);
        (v, done + more)
    }
}

/// A far end that sets a connection up: some frames come before the target is reached,
/// the others after that.
pub open spec fn upload(
    s: ReassemblerView,
    cid: u32,
    before: Seq<(FrameView, u64)>,
    connected_at: u64,
    after: Seq<(FrameView, u64)>,
) -> (ReassemblerView, Seq<Egress>) {
    let (t, first) = far_end(s, cid, before);
    let (u, token, actions) = t.on_connected(cid, false, connected_at);
    let (v, second) = carried_out(u, cid, actions, connected_at);
    let (w, third) = far_end(v, cid, after);
    (w, first + second + third)
}

/// A frame is one of a request's.
spec fn belongs(f: FrameView, cid: u32, target: SynView, chunks: Seq<Seq<u8>>) -> bool {
    ||| f == FrameView::syn(cid, target.wire())
    ||| f == FrameView::fin(cid, (chunks.len() + 1) as u64)
    ||| 1 <= f.seq <= chunks.len() && f == FrameView::data(cid, f.seq, chunks[f.seq - 1])
}

proof fn lemma_belongs(f: FrameView, cid: u32, target: SynView, chunks: Seq<Seq<u8>>)
    requires
        chunks.len() < u64::MAX,
        request_frames(cid, target, chunks).contains(f),
    ensures
        belongs(f, cid, target, chunks),
{
    let frames = request_frames(cid, target, chunks);
    let i = frames.index_of(f);
    let stream = stream_frames(cid, chunks);
    if i > 0 {
        assert(frames[i] == stream[i - 1]);
        if i - 1 < chunks.len() {
            assert(stream[i - 1] == data_frames(cid, chunks)[i - 1]);
        }
    }
}

proof fn lemma_flags()
    ensures
        flagged(FLAG_SYN, FLAG_SYN) && !flagged(FLAG_SYN, FLAG_DATA) && !flagged(FLAG_SYN, FLAG_FIN),
        flagged(FLAG_DATA, FLAG_DATA) && !flagged(FLAG_DATA, FLAG_SYN) && !flagged(
            FLAG_DATA,
            FLAG_FIN,
        ),
        flagged(FLAG_FIN, FLAG_FIN) && !flagged(FLAG_FIN, FLAG_SYN) && !flagged(
            FLAG_FIN,
            FLAG_DATA,
        ),
{
    assert(FLAG_SYN & FLAG_SYN != 0 && FLAG_SYN & FLAG_DATA == 0 && FLAG_SYN & FLAG_FIN == 0)
        by (bit_vector);
    assert(FLAG_DATA & FLAG_DATA != 0 && FLAG_DATA & FLAG_SYN == 0 && FLAG_DATA & FLAG_FIN == 0)
        by (bit_vector);
    assert(FLAG_FIN & FLAG_FIN != 0 && FLAG_FIN & FLAG_SYN == 0 && FLAG_FIN & FLAG_DATA == 0)
        by (bit_vector);
}

/// All frames but the last one are frames of the same list.
proof fn lemma_only_of_less(came: Seq<FrameView>, frames: Seq<FrameView>)
    requires
        only_of(came, frames),
        came.len() > 0,
    ensures
        only_of(came.drop_last(), frames),
{
    let prev = came.drop_last();
    assert forall|i: int| 0 <= i < prev.len() implies frames.contains(#[trigger] prev[i]) by {
        assert(prev[i] == came[i]);
    }
}

/// The pushes of frames of a request come from its chunks.
proof fn lemma_pushes_cut(came: Seq<FrameView>, cid: u32, target: SynView, chunks: Seq<Seq<u8>>)
    requires
        chunks.len() < u64::MAX,
        only_of(came, request_frames(cid, target, chunks)),
    ensures
        cut_from(pushes(came), chunks),
    decreases came.len(),
{
    lemma_flags();
    if came.len() > 0 {
        lemma_only_of_less(came, request_frames(cid, target, chunks));
        lemma_pushes_cut(came.drop_last(), cid, target, chunks);
        lemma_belongs(came[came.len() - 1], cid, target, chunks);
    }
}

/// A far end that knows nothing of a connection, and has room for what comes early.
pub open spec fn is_ready_for(s: ReassemblerView, cid: u32, early: Seq<FrameView>) -> bool {
    &&& s.pending.dom().finite()
    &&& !s.conns.contains_key(cid)
    &&& !s.pending.contains_key(cid)
    &&& !s.closed.contains_key(cid)
    &&& !s.handshaking.contains_key(cid)
    &&& s.pending.dom().len() < MAX_PENDING_CIDS
    &&& without_syn(early).len() <= MAX_PENDING_FRAMES_PER_CID
    &&& s.used() + data_bytes(without_syn(early)) <= MAX_PENDING_BYTES
}

/// A far end `t` was `s` before frames of a connection came that is not set up yet.
spec fn is_waiting(
    s: ReassemblerView,
    t: ReassemblerView,
    cid: u32,
    target: SynView,
    came: Seq<FrameView>,
) -> bool {
    &&& t.conns == s.conns
    &&& t.closed == s.closed
    &&& t.window == s.window
    &&& t.next_token == s.next_token
    &&& t.handshaking.contains_key(cid) == came.contains(FrameView::syn(cid, target.wire()))
    &&& came.len() == 0 ==> t.pending == s.pending
    &&& came.len() > 0 ==> t.pending.contains_key(cid) && t.pending == s.pending.insert(
        cid,
        PendingView {
            frames: without_syn(came),
            bytes: data_bytes(without_syn(came)),
            cancelled: false,
            ..t.pending[cid]
        },
    )
}

proof fn lemma_wait_step(
    s: ReassemblerView,
    t: ReassemblerView,
    cid: u32,
    target: SynView,
    chunks: Seq<Seq<u8>>,
    came: Seq<FrameView>,
    f: FrameView,
    now: u64,
)
    requires
        is_ready_for(s, cid, came.push(f)),
        is_waiting(s, t, cid, target, came),
        belongs(f, cid, target, chunks),
        target.fits(),
        target.proto == PROTO_TCP,
    ensures
        is_waiting(s, t.on_frame(f, now).0, cid, target, came.push(f)),
        t.on_frame(f, now).1 == (if f == FrameView::syn(cid, target.wire()) && !came.contains(f) {
            seq![ActionView::Connect { cid, target }]
        } else {
            Seq::empty()
        }),
{
    lemma_flags();
    let next = came.push(f);
    let syn = FrameView::syn(cid, target.wire());
    assert(next.drop_last() =~= came);
    assert(next.contains(syn) <==> came.contains(syn) || f == syn) by {
        assert(next[next.len() - 1] == f);
        if came.contains(syn) {
            assert(next[came.index_of(syn)] == syn);
        }
        if next.contains(syn) && f != syn {
            assert(came[next.index_of(syn)] == syn);
        }
    }
    let (u, actions) = t.on_frame(f, now);
    if f == syn {
        law_syn_round_trip(target, Seq::empty());
        assert(target.wire() + Seq::<u8>::empty() =~= target.wire());
        assert(read_syn(f.payload) == Ok::<SynView, FrameError>(target));
        if came.contains(syn) {
            assert(u.pending =~= t.pending);
        } else {
            assert(without_syn(next) == without_syn(came));
            if came.len() == 0 {
                assert(without_syn(came) =~= Seq::empty());
            }
            assert(u.pending =~= s.pending.insert(cid, u.pending[cid]));
        }
    } else {
        let waits = without_syn(next);
        assert(waits == without_syn(came).push(f));
        assert(waits.drop_last() =~= without_syn(came));
        let need = if f.flags == FLAG_DATA {
            f.payload.len()
        } else {
            0
        };
        if came.len() > 0 {
            lemma_total_insert(s.pending, cid, t.pending[cid], pending_size());
        } else {
            assert(without_syn(came) =~= Seq::empty());
        }
        assert(t.used() + need <= MAX_PENDING_BYTES);
        assert(t.pending.dom().finite());
        assert(t.reserve(cid, need, now) == (t, Seq::<ActionView>::empty(), true));
        assert(u.pending =~= s.pending.insert(cid, u.pending[cid]));
    }
}

/// With less to come there is room too.
proof fn lemma_ready_for_less(s: ReassemblerView, cid: u32, came: Seq<FrameView>)
    requires
        is_ready_for(s, cid, came),
        came.len() > 0,
    ensures
        is_ready_for(s, cid, came.drop_last()),
{
    let prev = came.drop_last();
    if !flagged(came.last().flags, FLAG_SYN) {
        assert(without_syn(came).drop_last() =~= without_syn(prev));
    }
}

/// What was done is to connect, if the SYN came.
spec fn connects(came: Seq<FrameView>, cid: u32, target: SynView) -> Seq<Egress> {
    if came.contains(FrameView::syn(cid, target.wire())) {
        seq![Egress::Connect(target)]
    } else {
        Seq::empty()
    }
}

proof fn lemma_waits(
    s: ReassemblerView,
    cid: u32,
    target: SynView,
    chunks: Seq<Seq<u8>>,
    news: Seq<(FrameView, u64)>,
)
    requires
        is_ready_for(s, cid, heard(news)),
        only_of(heard(news), request_frames(cid, target, chunks)),
        chunks.len() < u64::MAX,
        target.fits(),
        target.proto == PROTO_TCP,
    ensures
        is_waiting(s, far_end(s, cid, news).0, cid, target, heard(news)),
        far_end(s, cid, news).1 == connects(heard(news), cid, target),
    decreases news.len(),
{
    let came = heard(news);
    let syn = FrameView::syn(cid, target.wire());
    if news.len() > 0 {
        let prev = news.drop_last();
        let (f, now) = news[news.len() - 1];
        assert(heard(prev) =~= came.drop_last());
        assert(came =~= heard(prev).push(f));
        lemma_only_of_less(came, request_frames(cid, target, chunks));
        lemma_ready_for_less(s, cid, came);
        lemma_waits(s, cid, target, chunks, prev);
        lemma_belongs(came[came.len() - 1], cid, target, chunks);
        let (t, done) = far_end(s, cid, prev);
        lemma_wait_step(s, t, cid, target, chunks, heard(prev), f, now);
        let (u, actions) = t.on_frame(f, now);
        assert(came[came.len() - 1] == f);
        if f == syn && !heard(prev).contains(f) {
            assert(actions.drop_last() =~= Seq::<ActionView>::empty());
            assert(carried_out(u, cid, actions.drop_last(), now) == (u, Seq::<Egress>::empty()));
            assert(carried_out(u, cid, actions, now).0 == u);
            assert(carried_out(u, cid, actions, now).1 =~= seq![Egress::Connect(target)]);
            assert(far_end(s, cid, news).1 =~= seq![Egress::Connect(target)]);
        } else {
            assert(carried_out(u, cid, actions, now) == (u, Seq::<Egress>::empty()));
            assert(far_end(s, cid, news).1 =~= done);
            if heard(prev).contains(syn) {
                assert(came[heard(prev).index_of(syn)] == syn);
            } else if came.contains(syn) {
                assert(heard(prev)[came.index_of(syn)] == syn);
            }
        }
    }
}

/// Frames that waited and do not overflow the window are all taken in.
proof fn lemma_replay(
    start: ReorderView,
    came: Seq<FrameView>,
    cid: u32,
    target: SynView,
    chunks: Seq<Seq<u8>>,
)
    requires
        only_of(came, request_frames(cid, target, chunks)),
        chunks.len() < u64::MAX,
        !overflows(start, pushes(came)),
    ensures
        ({
            let r = replay(start, without_syn(came));
            let fin = FrameView::fin(cid, (chunks.len() + 1) as u64);
            &&& !r.broken
            &&& (r.reorder, r.ready) == run(start, pushes(came))
            &&& r.fin == (if came.contains(fin) {
                Some(fin.seq)
            } else {
                None
            })
        }),
    decreases came.len(),
{
    lemma_flags();
    let fin = FrameView::fin(cid, (chunks.len() + 1) as u64);
    if came.len() > 0 {
        let prev = came.drop_last();
        let f = came[came.len() - 1];
        lemma_only_of_less(came, request_frames(cid, target, chunks));
        lemma_belongs(f, cid, target, chunks);
        if f.flags == FLAG_DATA {
            assert(pushes(came).drop_last() =~= pushes(prev));
        }
        lemma_replay(start, prev, cid, target, chunks);
        if f.flags != FLAG_SYN {
            assert(without_syn(came).drop_last() =~= without_syn(prev));
        }
        assert(came.contains(fin) <==> prev.contains(fin) || f == fin) by {
            if prev.contains(fin) {
                assert(came[prev.index_of(fin)] == fin);
            }
            if came.contains(fin) && f != fin {
                assert(prev[came.index_of(fin)] == fin);
            }
        }
    }
}

/// How far the target of a connection has been served when these frames have come.
spec fn served(
    window: nat,
    cid: u32,
    target: SynView,
    chunks: Seq<Seq<u8>>,
    came: Seq<FrameView>,
) -> Seq<Egress> {
    let out = run(fresh(window, entry_cap(window)), pushes(came)).1;
    let all = seq![Egress::Connect(target)] + writes(out);
    if out == chunks && came.contains(FrameView::fin(cid, (chunks.len() + 1) as u64)) {
        all.push(Egress::Close)
    } else {
        all
    }
}

/// How far a connection has come when these frames have come.
spec fn is_serving(
    t: ReassemblerView,
    token: u64,
    window: nat,
    cid: u32,
    chunks: Seq<Seq<u8>>,
    came: Seq<FrameView>,
) -> bool {
    let (w, out) = run(fresh(window, entry_cap(window)), pushes(came));
    let c = t.conns[cid];
    let fin = FrameView::fin(cid, (chunks.len() + 1) as u64);
    &&& t.conns.contains_key(cid)
    &&& c.token == token
    &&& !c.is_udp
    &&& !c.egress_eof
    &&& c.reorder == w
    &&& c.fin_received == came.contains(fin)
    &&& c.fin_received ==> c.fin_seq == fin.seq
    &&& c.half_close == (if out == chunks && came.contains(fin) {
        HalfClose::Closed
    } else {
        HalfClose::Open
    })
}

/// The window has delivered a prefix of the chunks, and is complete when that is all.
proof fn lemma_window(
    window: nat,
    came: Seq<FrameView>,
    cid: u32,
    target: SynView,
    chunks: Seq<Seq<u8>>,
)
    requires
        only_of(came, request_frames(cid, target, chunks)),
        chunks.len() < u64::MAX,
    ensures
        ({
            let (w, out) = run(fresh(window, entry_cap(window)), pushes(came));
            &&& out.len() <= chunks.len()
            &&& out == chunks.take(out.len() as int)
            &&& w.expected == out.len() + 1
            &&& w.expected >= (chunks.len() + 1) as u64 <==> out == chunks
        }),
{
    lemma_pushes_cut(came, cid, target, chunks);
    law_delivers_in_order(window, entry_cap(window), pushes(came), chunks);
    let (w, out) = run(fresh(window, entry_cap(window)), pushes(came));
    if out.len() == chunks.len() {
        assert(out =~= chunks);
    }
}

proof fn lemma_connected(
    s: ReassemblerView,
    t: ReassemblerView,
    cid: u32,
    target: SynView,
    chunks: Seq<Seq<u8>>,
    came: Seq<FrameView>,
    now: u64,
)
    requires
        is_waiting(s, t, cid, target, came),
        !s.closed.contains_key(cid),
        came.len() > 0,
        only_of(came, request_frames(cid, target, chunks)),
        chunks.len() < u64::MAX,
        !overflows(fresh(s.window, entry_cap(s.window)), pushes(came)),
    ensures
        ({
            let (u, token, actions) = t.on_connected(cid, false, now);
            let (v, done) = carried_out(u, cid, actions, now);
            &&& token == Some(s.next_token)
            &&& is_serving(v, s.next_token, s.window, cid, chunks, came)
            &&& seq![Egress::Connect(target)] + done == served(s.window, cid, target, chunks, came)
        }),
{
    let start = fresh(s.window, entry_cap(s.window));
    let (u, token, actions) = t.on_connected(cid, false, now);
    let (v, done) = carried_out(u, cid, actions, now);
    let (w, out) = run(start, pushes(came));
    let fin = FrameView::fin(cid, (chunks.len() + 1) as u64);
    let deliver = ActionView::Deliver { cid, token: s.next_token, chunks: out, count: None };
    lemma_replay(start, came, cid, target, chunks);
    lemma_window(s.window, came, cid, target, chunks);
    assert(t.entry(cid, now).frames == without_syn(came));
    let first = seq![deliver];
    assert(first.drop_last() =~= Seq::<ActionView>::empty());
    assert(carried_out(u, cid, first.drop_last(), now) == (u, Seq::<Egress>::empty()));
    assert(closings(Seq::<ActionView>::empty(), cid) == Seq::<Egress>::empty());
    assert(Seq::<Egress>::empty() + writes(out) + Seq::<Egress>::empty() =~= writes(out));
    assert(u.on_delivered(cid, s.next_token, None, true, now) == (u, Seq::<ActionView>::empty()));
    assert(carried_out(u, cid, first, now) == (u, writes(out)));
    if came.contains(fin) {
        let armed = first.push(ActionView::ArmForceClose { cid, token: s.next_token });
        assert(armed.drop_last() =~= first);
        assert(carried_out(u, cid, armed, now) == (u, writes(out)));
        if out == chunks {
            assert(actions =~= armed.push(ActionView::CloseWrite { cid }));
            assert(actions.drop_last() =~= armed);
        } else {
            assert(actions =~= armed);
        }
    } else {
        assert(actions =~= first);
    }
    assert(v == u);
    assert(seq![Egress::Connect(target)] + done =~= served(s.window, cid, target, chunks, came));
}

/// One more frame of a list came, or another one.
proof fn lemma_push_came(came: Seq<FrameView>, f: FrameView, g: FrameView)
    ensures
        came.push(f).contains(g) <==> came.contains(g) || f == g,
{
    let next = came.push(f);
    assert(next[next.len() - 1] == f);
    if came.contains(g) {
        assert(next[came.index_of(g)] == g);
    }
    if next.contains(g) && f != g {
        assert(came[next.index_of(g)] == g);
    }
}

proof fn lemma_serve_data(
    t: ReassemblerView,
    token: u64,
    window: nat,
    cid: u32,
    target: SynView,
    chunks: Seq<Seq<u8>>,
    came: Seq<FrameView>,
    f: FrameView,
    now: u64,
)
    requires
        is_serving(t, token, window, cid, chunks, came),
        only_of(came.push(f), request_frames(cid, target, chunks)),
        f.flags == FLAG_DATA,
        chunks.len() < u64::MAX,
        !overflows(fresh(window, entry_cap(window)), pushes(came.push(f))),
    ensures
        ({
            let (u, actions) = t.on_frame(f, now);
            let (v, done) = carried_out(u, cid, actions, now);
            &&& is_serving(v, token, window, cid, chunks, came.push(f))
            &&& served(window, cid, target, chunks, came) + done == served(
                window,
                cid,
                target,
                chunks,
                came.push(f),
            )
        }),
{
    lemma_flags();
    let next = came.push(f);
    let fin = FrameView::fin(cid, (chunks.len() + 1) as u64);
    let start = fresh(window, entry_cap(window));
    assert(next.drop_last() =~= came);
    lemma_only_of_less(next, request_frames(cid, target, chunks));
    lemma_belongs(next[next.len() - 1], cid, target, chunks);
    lemma_push_came(came, f, fin);
    lemma_window(window, came, cid, target, chunks);
    lemma_window(window, next, cid, target, chunks);
    assert(pushes(next).drop_last() =~= pushes(came));
    let (w, out) = run(start, pushes(came));
    let (x, more) = run(start, pushes(next));
    let r = w.push(f.seq, f.payload).1;
    assert(more == out + r.ready);
    let (u, actions) = t.on_frame(f, now);
    let (v, done) = carried_out(u, cid, actions, now);
    if r.accepted {
        let count = Some(f.payload.len() as u64);
        let deliver = ActionView::Deliver { cid, token, chunks: r.ready, count };
        assert(out != chunks);
        assert(actions =~= seq![deliver]);
        assert(actions.drop_last() =~= Seq::<ActionView>::empty());
        assert(carried_out(u, cid, actions.drop_last(), now) == (u, Seq::<Egress>::empty()));
        let (last, told) = u.on_delivered(cid, token, count, true, now);
        let close = ActionView::CloseWrite { cid };
        assert(closings(Seq::<ActionView>::empty(), cid) == Seq::<Egress>::empty());
        if came.contains(fin) && more == chunks {
            assert(told =~= seq![close]);
            assert(told.drop_last() =~= Seq::<ActionView>::empty());
            assert(closings(told, cid) =~= seq![Egress::Close]);
        } else {
            assert(told =~= Seq::<ActionView>::empty());
            assert(closings(told, cid) =~= Seq::<Egress>::empty());
        }
        assert(v == last);
        assert(done =~= writes(r.ready) + closings(told, cid));
        assert(writes(more) =~= writes(out) + writes(r.ready));
    } else {
        assert(actions =~= Seq::<ActionView>::empty());
        assert(r.ready =~= Seq::<Seq<u8>>::empty());
        assert(more =~= out);
        assert(done =~= Seq::<Egress>::empty());
    }
    assert(served(window, cid, target, chunks, came) + done =~= served(
        window,
        cid,
        target,
        chunks,
        next,
    ));
}

proof fn lemma_serve_control(
    t: ReassemblerView,
    token: u64,
    window: nat,
    cid: u32,
    target: SynView,
    chunks: Seq<Seq<u8>>,
    came: Seq<FrameView>,
    f: FrameView,
    now: u64,
)
    requires
        is_serving(t, token, window, cid, chunks, came),
        only_of(came.push(f), request_frames(cid, target, chunks)),
        f.flags != FLAG_DATA,
        chunks.len() < u64::MAX,
    ensures
        ({
            let (u, actions) = t.on_frame(f, now);
            let (v, done) = carried_out(u, cid, actions, now);
            &&& is_serving(v, token, window, cid, chunks, came.push(f))
            &&& served(window, cid, target, chunks, came) + done == served(
                window,
                cid,
                target,
                chunks,
                came.push(f),
            )
        }),
{
    lemma_flags();
    let next = came.push(f);
    let fin = FrameView::fin(cid, (chunks.len() + 1) as u64);
    assert(next.drop_last() =~= came);
    lemma_only_of_less(next, request_frames(cid, target, chunks));
    lemma_belongs(next[next.len() - 1], cid, target, chunks);
    lemma_push_came(came, f, fin);
    lemma_window(window, came, cid, target, chunks);
    assert(pushes(next) == pushes(came));
    let out = run(fresh(window, entry_cap(window)), pushes(came)).1;
    let (u, actions) = t.on_frame(f, now);
    let (v, done) = carried_out(u, cid, actions, now);
    if f == fin && !came.contains(fin) {
        let armed = seq![ActionView::ArmForceClose { cid, token }];
        assert(armed.drop_last() =~= Seq::<ActionView>::empty());
        assert(carried_out(u, cid, armed.drop_last(), now) == (u, Seq::<Egress>::empty()));
        assert(carried_out(u, cid, armed, now) == (u, Seq::<Egress>::empty()));
        if out == chunks {
            assert(actions =~= armed.push(ActionView::CloseWrite { cid }));
            assert(actions.drop_last() =~= armed);
            assert(done =~= seq![Egress::Close]);
        } else {
            assert(actions =~= armed);
            assert(done =~= Seq::<Egress>::empty());
        }
        assert(v == u);
    } else {
        assert(actions =~= Seq::<ActionView>::empty());
        assert(done =~= Seq::<Egress>::empty());
        assert(v == u);
    }
    assert(served(window, cid, target, chunks, came) + done =~= served(
        window,
        cid,
        target,
        chunks,
        next,
    ));
}

proof fn lemma_serves(
    s: ReassemblerView,
    token: u64,
    window: nat,
    cid: u32,
    target: SynView,
    chunks: Seq<Seq<u8>>,
    early: Seq<FrameView>,
    news: Seq<(FrameView, u64)>,
)
    requires
        is_serving(s, token, window, cid, chunks, early),
        only_of(early + heard(news), request_frames(cid, target, chunks)),
        chunks.len() < u64::MAX,
        !overflows(fresh(window, entry_cap(window)), pushes(early + heard(news))),
    ensures
        is_serving(far_end(s, cid, news).0, token, window, cid, chunks, early + heard(news)),
        served(window, cid, target, chunks, early) + far_end(s, cid, news).1 == served(
            window,
            cid,
            target,
            chunks,
            early + heard(news),
        ),
    decreases news.len(),
{
    let frames = request_frames(cid, target, chunks);
    let came = early + heard(news);
    if news.len() == 0 {
        assert(came =~= early);
        assert(served(window, cid, target, chunks, early) + Seq::<Egress>::empty() =~= served(
            window,
            cid,
            target,
            chunks,
            early,
        ));
    } else {
        let prev = news.drop_last();
        let (f, now) = news[news.len() - 1];
        let less = early + heard(prev);
        assert(came.drop_last() =~= less);
        assert(came =~= less.push(f));
        lemma_only_of_less(came, frames);
        assert(!overflows(fresh(window, entry_cap(window)), pushes(less))) by {
            if flagged(f.flags, FLAG_DATA) {
                assert(pushes(came).drop_last() =~= pushes(less));
            }
        }
        lemma_serves(s, token, window, cid, target, chunks, early, prev);
        let (t, done) = far_end(s, cid, prev);
        if f.flags == FLAG_DATA {
            lemma_serve_data(t, token, window, cid, target, chunks, less, f, now);
        } else {
            lemma_serve_control(t, token, window, cid, target, chunks, less, f, now);
        }
        let (u, actions) = t.on_frame(f, now);
        let (v, more) = carried_out(u, cid, actions, now);
        let first = served(window, cid, target, chunks, early);
        assert(first + (done + more) =~= (first + done) + more);
    }
}

/// A request reaches its target, over whichever tunnels its frames come, in whatever
/// order, before or after the target is reached: the target is connected to once, what it
/// reads is always a prefix of the request, and the end of the request comes after all of
/// it, once, and only then. When every frame has come, the target has read the whole
/// request and its end. The connection stays for the response.
pub proof fn law_request_reaches_the_target(
    s: ReassemblerView,
    cid: u32,
    target: SynView,
    request: Seq<Seq<u8>>,
    before: Seq<(FrameView, u64)>,
    connected_at: u64,
    after: Seq<(FrameView, u64)>,
) -> (k: int)
    requires
        target.fits(),
        target.proto == PROTO_TCP,
        request.len() < u64::MAX,
        is_ready_for(s, cid, heard(before)),
        heard(before).contains(FrameView::syn(cid, target.wire())),
        only_of(heard(before) + heard(after), request_frames(cid, target, request)),
        !overflows(
            fresh(s.window, entry_cap(s.window)),
            pushes(heard(before) + heard(after)),
        ),
    ensures
        ({
            let came = heard(before) + heard(after);
            let ended = came.contains(FrameView::fin(cid, (request.len() + 1) as u64));
            let (t, done) = upload(s, cid, before, connected_at, after);
            let wrote = seq![Egress::Connect(target)] + writes(request.take(k));
            &&& 0 <= k <= request.len()
            &&& done == (if k == request.len() && ended {
                wrote.push(Egress::Close)
            } else {
                wrote
            })
            &&& all_of(came, request_frames(cid, target, request)) ==> k == request.len() && ended
            &&& t.is_current(cid, s.next_token)
            &&& !t.conns[cid].egress_eof
            &&& t.conns[cid].fin_received == ended
            &&& t.conns[cid].half_close == HalfClose::Closed <==> k == request.len() && ended
        }),
{
    let frames = request_frames(cid, target, request);
    let early = heard(before);
    let came = early + heard(after);
    let fin = FrameView::fin(cid, (request.len() + 1) as u64);
    let start = fresh(s.window, entry_cap(s.window));
    assert(only_of(early, frames)) by {
        assert forall|i: int| 0 <= i < early.len() implies frames.contains(#[trigger] early[i]) by {
            assert(early[i] == came[i]);
        }
    }
    lemma_overflows_less(start, came, early.len() as int);
    assert(came.take(early.len() as int) =~= early);
    lemma_waits(s, cid, target, request, before);
    let (t, first) = far_end(s, cid, before);
    lemma_connected(s, t, cid, target, request, early, connected_at);
    let (u, token, actions) = t.on_connected(cid, false, connected_at);
    let (v, second) = carried_out(u, cid, actions, connected_at);
    lemma_serves(v, s.next_token, s.window, cid, target, request, early, after);
    lemma_window(s.window, came, cid, target, request);
    let out = run(start, pushes(came)).1;
    if all_of(came, frames) {
        let stream = stream_frames(cid, request);
        assert(frames[frames.len() - 1] == fin);
        assert forall|i: int| 0 <= i < stream.len() implies came.contains(#[trigger] stream[i]) by {
            assert(frames[i + 1] == stream[i]);
        }
        lemma_all_pushed(came, cid, request);
        lemma_pushes_cut(came, cid, target, request);
        law_delivers_everything(s.window, entry_cap(s.window), pushes(came), request);
    }
    assert(out.len() == request.len() ==> out =~= request);
    out.len() as int
}

/// What does not overflow as a whole does not overflow in part.
proof fn lemma_overflows_less(start: ReorderView, came: Seq<FrameView>, n: int)
    requires
        0 <= n <= came.len(),
        !overflows(start, pushes(came)),
    ensures
        !overflows(start, pushes(came.take(n))),
    decreases came.len(),
{
    if n == came.len() {
        assert(came.take(n) =~= came);
    } else {
        let prev = came.drop_last();
        if flagged(came.last().flags, FLAG_DATA) {
            assert(pushes(came).drop_last() =~= pushes(prev));
        }
        lemma_overflows_less(start, prev, n);
        assert(prev.take(n) =~= came.take(n));
    }
}

/// When every frame came, every number was pushed.
proof fn lemma_all_pushed(came: Seq<FrameView>, cid: u32, chunks: Seq<Seq<u8>>)
    requires
        chunks.len() < u64::MAX,
        all_of(came, stream_frames(cid, chunks)),
    ensures
        forall|n: int| 1 <= n <= chunks.len() ==> #[trigger] arrives(pushes(came), n),
{
    let frames = stream_frames(cid, chunks);
    lemma_flags();
    assert forall|n: int| 1 <= n <= chunks.len() implies #[trigger] arrives(pushes(came), n) by {
        let f = FrameView::data(cid, n as u64, chunks[n - 1]);
        assert(frames[n - 1] == f);
        assert(came.contains(f));
        lemma_pushed(came, came.index_of(f));
    }
}

/// A data frame that came was pushed.
proof fn lemma_pushed(came: Seq<FrameView>, i: int)
    requires
        0 <= i < came.len(),
        flagged(came[i].flags, FLAG_DATA),
    ensures
        arrives(pushes(came), came[i].seq as int),
    decreases came.len(),
{
    let prev = came.drop_last();
    let all = pushes(came);
    if i == came.len() - 1 {
        assert(all[all.len() - 1].0 == came[i].seq);
    } else {
        assert(prev[i] == came[i]);
        lemma_pushed(prev, i);
        let j = choose|j: int| 0 <= j < pushes(prev).len() && (#[trigger] pushes(prev)[j]).0
            == came[i].seq;
        assert(all[j] == pushes(prev)[j]);
    }
}

/// A near end whose caller queues what is asked for, all of which the client takes, and
/// the chunks that were queued.
pub open spec fn handed_over(
    s: SplitterView,
    cid: u32,
    actions: Seq<ClientAction>,
    now: u64,
) -> (SplitterView, Seq<Seq<u8>>)
    decreases actions.len(),
{
    if actions.len() == 0 {
        (s, Seq::empty())
    } else {
        let (t, out) = handed_over(s, cid, actions.drop_last(), now);
        match actions.last() {
            ClientAction::Deliver { cid: to, token, chunks, count } => if to == cid {
                (t.on_delivered(cid, token, count, true, now).0, out + chunks)
            } else {
                (t, out)
            },
            _ => (t, out),
        }
    }
}

/// A near end after frames of a connection came, and what the client got to read.
pub open spec fn near_end(s: SplitterView, cid: u32, news: Seq<(FrameView, u64)>) -> (
    SplitterView,
    Seq<Seq<u8>>,
)
    decreases news.len(),
{
    if news.len() == 0 {
        (s, Seq::empty())
    } else {
        let (t, out) = near_end(s, cid, news.drop_last());
        let (f, now) = news.last();
        let (u, actions) = t.on_frame(f, now);
        let (v, more) = handed_over(u, cid, actions, now);
        (v, out + more)
    }
}

/// How far a client's connection has come when these frames have come.
spec fn is_receiving(
    t: SplitterView,
    token: u64,
    window: nat,
    cid: u32,
    chunks: Seq<Seq<u8>>,
    came: Seq<FrameView>,
) -> bool {
    let c = t.conns[cid];
    let fin = FrameView::fin(cid, (chunks.len() + 1) as u64);
    &&& t.conns.contains_key(cid)
    &&& c.token == token
    &&& !c.is_udp
    &&& c.reorder == run(fresh(window, entry_cap(window)), pushes(came)).0
    &&& c.fin_received == came.contains(fin)
    &&& c.fin_received ==> c.fin_seq == fin.seq
}

/// The frames of a stream are frames of a request that carries it.
proof fn lemma_stream_is_of_request(
    came: Seq<FrameView>,
    cid: u32,
    target: SynView,
    chunks: Seq<Seq<u8>>,
)
    requires
        only_of(came, stream_frames(cid, chunks)),
    ensures
        only_of(came, request_frames(cid, target, chunks)),
{
    let stream = stream_frames(cid, chunks);
    let frames = request_frames(cid, target, chunks);
    assert forall|i: int| 0 <= i < came.len() implies frames.contains(#[trigger] came[i]) by {
        assert(stream.contains(came[i]));
        assert(frames[stream.index_of(came[i]) + 1] == came[i]);
    }
}

proof fn lemma_receives(
    s: SplitterView,
    cid: u32,
    target: SynView,
    chunks: Seq<Seq<u8>>,
    news: Seq<(FrameView, u64)>,
)
    requires
        is_receiving(s, s.conns[cid].token, s.window, cid, chunks, Seq::empty()),
        only_of(heard(news), request_frames(cid, target, chunks)),
        chunks.len() < u64::MAX,
        !overflows(fresh(s.window, entry_cap(s.window)), pushes(heard(news))),
    ensures
        is_receiving(
            near_end(s, cid, news).0,
            s.conns[cid].token,
            s.window,
            cid,
            chunks,
            heard(news),
        ),
        near_end(s, cid, news).1 == run(
            fresh(s.window, entry_cap(s.window)),
            pushes(heard(news)),
        ).1,
    decreases news.len(),
{
    lemma_flags();
    assert(FLAG_SYN & FLAG_RST == 0) by (bit_vector);
    let start = fresh(s.window, entry_cap(s.window));
    let came = heard(news);
    let fin = FrameView::fin(cid, (chunks.len() + 1) as u64);
    if news.len() == 0 {
        assert(came =~= Seq::empty());
    } else {
        let prev = news.drop_last();
        let (f, now) = news[news.len() - 1];
        assert(heard(prev) =~= came.drop_last());
        assert(came =~= heard(prev).push(f));
        lemma_only_of_less(came, request_frames(cid, target, chunks));
        lemma_belongs(came[came.len() - 1], cid, target, chunks);
        lemma_push_came(heard(prev), f, fin);
        if f.flags == FLAG_DATA {
            assert(pushes(came).drop_last() =~= pushes(heard(prev)));
        }
        lemma_receives(s, cid, target, chunks, prev);
        let (t, out) = near_end(s, cid, prev);
        let (u, actions) = t.on_frame(f, now);
        let (v, more) = handed_over(u, cid, actions, now);
        let r = t.conns[cid].reorder.push(f.seq, f.payload).1;
        let none = Seq::<ClientAction>::empty();
        assert(handed_over(u, cid, none, now) == (u, Seq::<Seq<u8>>::empty()));
        if f.flags == FLAG_DATA && r.accepted {
            assert(actions.drop_last() =~= none);
            assert(more =~= r.ready);
        } else if f.flags == FLAG_DATA {
            assert(actions =~= none);
            assert(more =~= r.ready);
        } else if f == fin {
            assert(actions.drop_last() =~= none);
            assert(v == u);
            assert(out + more =~= out);
        } else {
            assert(actions =~= none);
            assert(out + more =~= out);
        }
    }
}

/// A response reaches its client, over whichever tunnels its frames come and in whatever
/// order: what the client reads is always a prefix of the response, and all of it when
/// every frame has come. A client that has closed its own direction is not left before
/// that: within the time limits, the wait for the rest is over when the whole response
/// and its end have come, and not before.
pub proof fn law_response_reaches_the_client(
    s: SplitterView,
    cid: u32,
    response: Seq<Seq<u8>>,
    news: Seq<(FrameView, u64)>,
) -> (k: int)
    requires
        s.conns.contains_key(cid),
        !s.conns[cid].is_udp,
        !s.conns[cid].fin_received,
        s.conns[cid].reorder == fresh(s.window, entry_cap(s.window)),
        response.len() < u64::MAX,
        only_of(heard(news), stream_frames(cid, response)),
        !overflows(fresh(s.window, entry_cap(s.window)), pushes(heard(news))),
    ensures
        ({
            let token = s.conns[cid].token;
            let ended = heard(news).contains(FrameView::fin(cid, (response.len() + 1) as u64));
            let (t, out) = near_end(s, cid, news);
            &&& 0 <= k <= response.len()
            &&& out == response.take(k)
            &&& all_of(heard(news), stream_frames(cid, response)) ==> k == response.len() && ended
            &&& t.is_current(cid, token)
            &&& k == response.len() && ended ==> forall|seen: Option<u64>, now: u64| #[trigger]
                t.grace(cid, token, seen, now) == Grace::Over
            &&& forall|seen: Option<u64>, now: u64|
                span(now, t.conns[cid].last_active) < CLOSE_QUIET_TIMEOUT && (seen is Some ==> span(
                    now,
                    seen->Some_0,
                ) < CLOSE_GRACE_MAX) && #[trigger] t.grace(cid, token, seen, now) == Grace::Over
                    ==> k == response.len() && ended
        }),
{
    let target = arbitrary::<SynView>();
    let came = heard(news);
    lemma_stream_is_of_request(came, cid, target, response);
    assert(pushes(Seq::<FrameView>::empty()) =~= Seq::empty());
    lemma_receives(s, cid, target, response, news);
    lemma_window(s.window, came, cid, target, response);
    let out = run(fresh(s.window, entry_cap(s.window)), pushes(came)).1;
    let stream = stream_frames(cid, response);
    if all_of(came, stream) {
        assert(stream[stream.len() - 1] == FrameView::fin(cid, (response.len() + 1) as u64));
        lemma_all_pushed(came, cid, response);
        lemma_pushes_cut(came, cid, target, response);
        law_delivers_everything(s.window, entry_cap(s.window), pushes(came), response);
    }
    assert(out.len() == response.len() ==> out =~= response);
    out.len() as int
}

/// A request or a response that is no larger than the window never overflows it, however
/// its frames come.
pub proof fn law_what_fits_gets_through(
    came: Seq<FrameView>,
    cid: u32,
    target: SynView,
    chunks: Seq<Seq<u8>>,
    window: nat,
)
    requires
        only_of(came, request_frames(cid, target, chunks)) || only_of(
            came,
            stream_frames(cid, chunks),
        ),
        chunks.len() < u64::MAX,
        chunks.len() <= entry_cap(window),
        stream_bytes(chunks) <= window,
    ensures
        !overflows(fresh(window, entry_cap(window)), pushes(came)),
{
    if only_of(came, stream_frames(cid, chunks)) {
        lemma_stream_is_of_request(came, cid, target, chunks);
    }
    lemma_pushes_cut(came, cid, target, chunks);
    law_what_fits_never_overflows(window, entry_cap(window), pushes(came), chunks);
}

/// A far end that has sent a response to the other end, chunk by chunk.
pub open spec fn answered(
    s: ReassemblerView,
    cid: u32,
    token: u64,
    response: Seq<Seq<u8>>,
    now: u64,
) -> ReassemblerView
    decreases response.len(),
{
    if response.len() == 0 {
        s
    } else {
        answered(s, cid, token, response.drop_last(), now).on_response_sent(
            cid,
            token,
            response.last().len(),
            now,
        )
    }
}

/// Sending a response changes nothing of how far a connection has come.
proof fn lemma_answered(
    s: ReassemblerView,
    cid: u32,
    token: u64,
    response: Seq<Seq<u8>>,
    now: u64,
)
    requires
        s.is_current(cid, token),
    ensures
        ({
            let t = answered(s, cid, token, response, now);
            &&& t.is_current(cid, token)
            &&& t.conns[cid].fin_received == s.conns[cid].fin_received
            &&& t.conns[cid].half_close == s.conns[cid].half_close
        }),
    decreases response.len(),
{
    if response.len() > 0 {
        lemma_answered(s, cid, token, response.drop_last(), now);
    }
}

/// The bytes of chunks that are written are their bytes.
proof fn lemma_written(target: SynView, chunks: Seq<Seq<u8>>)
    ensures
        written(seq![Egress::Connect(target)] + writes(chunks)) == joined(chunks),
    decreases chunks.len(),
{
    let all = seq![Egress::Connect(target)] + writes(chunks);
    if chunks.len() == 0 {
        assert(all.drop_last() =~= Seq::<Egress>::empty());
        assert(written(all.drop_last()) =~= Seq::<u8>::empty());
        assert(written(all) =~= Seq::<u8>::empty());
    } else {
        let less = chunks.drop_last();
        lemma_written(target, less);
        assert(all.drop_last() =~= seq![Egress::Connect(target)] + writes(less));
        assert(all.last() == Egress::Write(chunks.last()));
    }
}

/// A whole exchange: a client asks for a target, sends a request and ends its direction;
/// the target reads to the end, answers with some function of what it read, and closes.
/// The frames of both directions travel over several tunnels, so they come in any order,
/// each at least once. Then the target has read exactly the request, followed by its end;
/// the client has read exactly the answer to that request, and its wait is over, so that
/// it reads the end next; and neither end keeps the connection.
pub proof fn law_request_and_response(
    far: ReassemblerView,
    near: SplitterView,
    cid: u32,
    target: SynView,
    request: Seq<Seq<u8>>,
    response: Seq<Seq<u8>>,
    answer: spec_fn(Seq<u8>) -> Seq<u8>,
    before: Seq<(FrameView, u64)>,
    connected_at: u64,
    after: Seq<(FrameView, u64)>,
    answered_at: u64,
    back: Seq<(FrameView, u64)>,
    closed_at: u64,
)
    requires
        target.fits(),
        target.proto == PROTO_TCP,
        request.len() < u64::MAX,
        response.len() < u64::MAX,
        is_ready_for(far, cid, heard(before)),
        heard(before).contains(FrameView::syn(cid, target.wire())),
        only_of(heard(before) + heard(after), request_frames(cid, target, request)),
        all_of(heard(before) + heard(after), request_frames(cid, target, request)),
        !overflows(
            fresh(far.window, entry_cap(far.window)),
            pushes(heard(before) + heard(after)),
        ),
        joined(response) == answer(written(upload(far, cid, before, connected_at, after).1)),
        near.conns.contains_key(cid),
        !near.conns[cid].is_udp,
        !near.conns[cid].fin_received,
        near.conns[cid].reorder == fresh(near.window, entry_cap(near.window)),
        only_of(heard(back), stream_frames(cid, response)),
        all_of(heard(back), stream_frames(cid, response)),
        !overflows(fresh(near.window, entry_cap(near.window)), pushes(heard(back))),
    ensures
        ({
            let (t, done) = upload(far, cid, before, connected_at, after);
            let token = far.next_token;
            let (last, actions) = answered(t, cid, token, response, answered_at).on_egress_ended(
                cid,
                token,
                true,
                answered_at,
            );
            &&& done == (seq![Egress::Connect(target)] + writes(request)).push(Egress::Close)
            &&& written(done) == joined(request)
            &&& !last.conns.contains_key(cid)
            &&& last.closed.contains_key(cid)
            &&& actions == seq![ActionView::Release { cid }]
        }),
        ({
            let (t, out) = near_end(near, cid, back);
            let token = near.conns[cid].token;
            let (last, actions) = t.closed(cid, token, false, closed_at);
            &&& out == response
            &&& joined(out) == answer(joined(request))
            &&& forall|seen: Option<u64>, now: u64| #[trigger]
                t.grace(cid, token, seen, now) == Grace::Over
            &&& !last.conns.contains_key(cid)
            &&& actions.len() == 0
        }),
{
    let k = law_request_reaches_the_target(
        far,
        cid,
        target,
        request,
        before,
        connected_at,
        after,
    );
    let (t, done) = upload(far, cid, before, connected_at, after);
    assert(request.take(k) =~= request);
    let wrote = seq![Egress::Connect(target)] + writes(request);
    lemma_written(target, request);
    assert(done.drop_last() =~= wrote);
    assert(written(done) =~= joined(request));
    lemma_answered(t, cid, far.next_token, response, answered_at);
    let j = law_response_reaches_the_client(near, cid, response, back);
    assert(response.take(j) =~= response);
    let (last, actions) = answered(t, cid, far.next_token, response, answered_at).on_egress_ended(
        cid,
        far.next_token,
        true,
        answered_at,
    );
    assert(actions =~= seq![ActionView::Release { cid }]);
}

} // verus!
