//! Values and what they stand for: each part of a value is told as it is.

use crate::buf::bytes_content;
use crate::frame::{Frame, FrameView, SynTarget, SynView};
use crate::reassembler::{frame_views, PendingEntry, VirtConnDe};
use crate::reorder::{contents, PushResult};
use crate::socks5::{
    ClientStep, ClientStepView, ServerStep, ServerStepView, TargetAddr, TargetView,
};
use crate::splitter::VirtConn;
use crate::text::part_views;
use crate::tunnel::{frames_put, link_views, maybe_view, TunnelLink};
use crate::{reassembler, splitter};
use bytes::Bytes;
use vstd::prelude::*;

verus! {

/// A frame is its id, its number, its flags and the bytes that it carries; a target is its
/// protocol, host and port.
pub proof fn law_frames_and_targets(f: Frame, s: SynTarget, t: TargetAddr)
    ensures
        f@ == (FrameView {
            conn_id: f.conn_id,
            seq: f.seq,
            flags: f.flags,
            payload: bytes_content(f.payload),
        }),
        s@ == (SynView { proto: s.proto, address: s.address@, port: s.port }),
        t@ == (TargetView { address: t.address@, port: t.port }),
        maybe_view(Some(f)) == Some(f@),
        maybe_view(None) is None,
{
}

/// Lists stand for what their items stand for, each at its place.
pub proof fn law_lists(
    frames: Seq<Frame>,
    chunks: Seq<Bytes>,
    parts: Seq<Vec<char>>,
    links: Seq<TunnelLink>,
    near: Seq<splitter::Action>,
    far: Seq<reassembler::Action>,
    i: int,
)
    ensures
        frame_views(frames).len() == frames.len(),
        contents(chunks).len() == chunks.len(),
        part_views(parts).len() == parts.len(),
        link_views(links).len() == links.len(),
        splitter::action_views(near).len() == near.len(),
        reassembler::action_views(far).len() == far.len(),
        0 <= i < frames.len() ==> frame_views(frames)[i] == frames[i]@,
        0 <= i < chunks.len() ==> contents(chunks)[i] == bytes_content(chunks[i]),
        0 <= i < parts.len() ==> part_views(parts)[i] == parts[i]@,
        0 <= i < links.len() ==> link_views(links)[i] == links[i]@,
        0 <= i < near.len() ==> splitter::action_views(near)[i] == near[i]@,
        0 <= i < far.len() ==> reassembler::action_views(far)[i] == far[i]@,
{
}

/// What came of a push is told as it is.
pub proof fn law_push_results(r: PushResult)
    ensures
        r@.ready == contents(r.ready@),
        r@.accepted == r.accepted,
        r@.overflow == r.overflow,
{
}

/// What a splitter asks for is told as it is.
pub proof fn law_near_actions(a: splitter::Action)
    ensures
        match a {
            splitter::Action::Send(f) => a@ == splitter::ActionView::Send(f@),
            splitter::Action::Deliver { cid, token, chunks, count } => a@ == (
            splitter::ActionView::Deliver { cid, token, chunks: contents(chunks@), count }),
            splitter::Action::Wake { cid, token } => a@ == (splitter::ActionView::Wake {
                cid,
                token,
            }),
            splitter::Action::Stop { cid, token, reset } => a@ == (splitter::ActionView::Stop {
                cid,
                token,
                reset,
            }),
        },
{
}

/// What a reassembler asks for is told as it is.
pub proof fn law_far_actions(a: reassembler::Action)
    ensures
        match a {
            reassembler::Action::Send(f) => a@ == reassembler::ActionView::Send(f@),
            reassembler::Action::Connect { cid, target } => a@ == (
            reassembler::ActionView::Connect { cid, target: target@ }),
            reassembler::Action::BindUdp { cid } => a@ == (reassembler::ActionView::BindUdp {
                cid,
            }),
            reassembler::Action::CancelHandshake { cid } => a@ == (
            reassembler::ActionView::CancelHandshake { cid }),
            reassembler::Action::Teardown { cid } => a@ == (reassembler::ActionView::Teardown {
                cid,
            }),
            reassembler::Action::Release { cid } => a@ == (reassembler::ActionView::Release {
                cid,
            }),
            reassembler::Action::Deliver { cid, token, chunks, count } => a@ == (
            reassembler::ActionView::Deliver { cid, token, chunks: contents(chunks@), count }),
            reassembler::Action::Forward { cid, datagram } => a@ == (
            reassembler::ActionView::Forward { cid, datagram: bytes_content(datagram) }),
            reassembler::Action::CloseWrite { cid } => a@ == (
            reassembler::ActionView::CloseWrite { cid }),
            reassembler::Action::ArmForceClose { cid, token } => a@ == (
            reassembler::ActionView::ArmForceClose { cid, token }),
        },
{
}

/// What a handshake asks for is told as it is.
pub proof fn law_steps(s: ServerStep, c: ClientStep)
    ensures
        match s {
            ServerStep::Read { reply } => s@ == (ServerStepView::Read { reply: reply@ }),
            ServerStep::Accept { command, target } => s@ == (ServerStepView::Accept {
                command,
                target: target@,
            }),
            ServerStep::Tunnel { reply } => s@ == (ServerStepView::Tunnel { reply: reply@ }),
            ServerStep::Refuse { reply, error } => s@ == (ServerStepView::Refuse {
                reply: reply@,
                error,
            }),
        },
        match c {
            ClientStep::Read { request } => c@ == (ClientStepView::Read { request: request@ }),
            ClientStep::Done => c@ == ClientStepView::Done,
            ClientStep::Fail(e) => c@ == ClientStepView::Fail(e),
        },
{
}

/// A connection to a client stands for its own parts.
pub proof fn law_clients(c: VirtConn)
    ensures
        c@.token == c.token && c@.reorder == c.reorder@ && c@.is_udp == c.is_udp,
        c@.fin_received == c.fin_received && c@.fin_seq == c.fin_seq,
        c@.grace_waiting == c.grace_waiting && c@.handler_alive == c.handler_alive,
        c@.created_at == c.created_at && c@.last_active == c.last_active,
        c@.bytes_sent == c.bytes_sent && c@.bytes_recv == c.bytes_recv,
        c@.frames_sent == c.frames_sent && c@.frames_recv == c.frames_recv,
{
}

/// A connection to a target, and frames that wait for one, stand for their own parts.
pub proof fn law_egresses(c: VirtConnDe, p: PendingEntry)
    ensures
        c@.token == c.token && c@.reorder == c.reorder@ && c@.is_udp == c.is_udp,
        c@.fin_received == c.fin_received && c@.fin_seq == c.fin_seq,
        c@.half_close == c.half_close && c@.egress_eof == c.egress_eof,
        c@.created_at == c.created_at && c@.last_active == c.last_active,
        c@.bytes_sent == c.bytes_sent && c@.bytes_recv == c.bytes_recv,
        c@.frames_sent == c.frames_sent && c@.frames_recv == c.frames_recv,
        p@.frames == frame_views(p.frames@) && p@.since == p.since && p@.bytes == p.bytes,
        p@.cancelled == p.cancelled && p@.connecting == p.connecting,
{
}

/// A link stands for its own parts, and for the frames that were put into its channel.
pub proof fn law_links(l: TunnelLink)
    ensures
        l@.id == l.id && l@.alive == l.alive && l@.rate_bps == l.rate_bps,
        l@.bytes_sent == l.bytes_sent && l@.bytes_recv == l.bytes_recv,
        l@.frames_sent == l.frames_sent && l@.frames_recv == l.frames_recv,
        l@.last_active == l.last_active,
        l@.queued == frames_put(l.tx),
{
}

} // verus!
