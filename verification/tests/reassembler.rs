use bytes::Bytes;
use round_robin::addr::{IpAddress, SocketAddress};
use round_robin::clock::SECOND;
use round_robin::frame::{
    Frame, FrameSource, SynTarget, FLAG_DATA, FLAG_FIN, FLAG_RST, MAX_PAYLOAD, MAX_PENDING_BYTES,
    MAX_PENDING_CIDS, PROTO_TCP, PROTO_UDP,
};
use round_robin::reassembler::{
    replace_lost, udp_response, Action, Reassembler, MAX_PENDING_FRAMES_PER_CID,
};
use round_robin::socks5::decode_udp_datagram;

const WINDOW: usize = 1 << 20;

fn data(cid: u32, seq: u64, text: &'static str) -> Frame {
    Frame::data(cid, seq, Bytes::from_static(text.as_bytes()))
}

fn syn(cid: u32, proto: u8) -> Frame {
    let target = SynTarget { proto, address: "example.com".into(), port: 80 };
    Frame::syn(cid, target.encode().unwrap())
}

fn text(b: &Bytes) -> &str {
    std::str::from_utf8(b).unwrap()
}

/// Actions as short texts, with the chunks that are queued joined by `|`.
fn told(actions: &[Action]) -> Vec<String> {
    actions
        .iter()
        .map(|a| match a {
            Action::Send(f) => match f.flags {
                FLAG_RST => format!("rst {}", f.conn_id),
                FLAG_FIN => format!("fin {} {}", f.conn_id, f.seq),
                FLAG_DATA => format!("data {} {}", f.conn_id, f.seq),
                _ => format!("syn {}", f.conn_id),
            },
            Action::Connect { cid, target } => {
                format!("connect {cid} {}:{}", target.address, target.port)
            }
            Action::BindUdp { cid } => format!("bind {cid}"),
            Action::CancelHandshake { cid } => format!("cancel {cid}"),
            Action::Teardown { cid } => format!("teardown {cid}"),
            Action::Release { cid } => format!("release {cid}"),
            Action::Deliver { cid, chunks, count, .. } => {
                let all: Vec<&str> = chunks.iter().map(text).collect();
                format!("deliver {cid} [{}] {count:?}", all.join("|"))
            }
            Action::Forward { cid, datagram } => format!("forward {cid} {}", text(datagram)),
            Action::CloseWrite { cid } => format!("close {cid}"),
            Action::ArmForceClose { cid, .. } => format!("arm {cid}"),
        })
        .collect()
}

/// A reassembler with a TCP connection that was set up at the start, and its token.
fn connected(cid: u32) -> (Reassembler, u64) {
    let mut r = Reassembler::new(WINDOW);
    r.handle_frame(syn(cid, PROTO_TCP), 0);
    let (token, actions) = r.connected(cid, false, 0);
    assert_eq!(told(&actions), [format!("deliver {cid} [] None")]);
    (r, token.unwrap())
}

#[test]
fn pending_data_overflow_fails_fast() {
    let mut r = Reassembler::new(WINDOW);
    let cid = 42u32;
    for _ in 0..MAX_PENDING_FRAMES_PER_CID {
        assert!(r.handle_frame(Frame::data(cid, 0, Bytes::new()), 0).is_empty());
    }
    let actions = r.handle_frame(data(cid, 1, "x"), 0);
    assert_eq!(told(&actions), ["rst 42"]);
    assert!(r.is_closed(cid), "cid must be tombstoned");
    assert!(r.is_cancelled(cid), "pending entry must be cancelled");
    let (token, actions) = r.connected(cid, false, 0);
    assert!(token.is_none() && actions.is_empty());
}

#[test]
fn pending_fin_drop_fails_fast() {
    let mut r = Reassembler::new(WINDOW);
    for i in 1..=MAX_PENDING_CIDS as u32 {
        assert!(r.handle_frame(Frame::fin(i, 1), 0).is_empty());
    }
    let cid = 777u32;
    assert_eq!(told(&r.handle_frame(Frame::fin(cid, 7), 0)), ["rst 777"]);
    assert!(r.is_closed(cid));
    assert_eq!(r.pending_cids(), MAX_PENDING_CIDS);
}

#[test]
fn unknown_syn_proto_resets() {
    let mut r = Reassembler::new(WINDOW);
    let cid = 5u32;
    assert_eq!(told(&r.handle_frame(syn(cid, 0x99), 0)), ["rst 5"]);
    assert!(r.is_closed(cid));
    assert!(!r.is_handshaking(cid));
    assert_eq!(told(&r.handle_frame(Frame::syn(6, Bytes::new()), 0)), ["rst 6"]);
    assert!(r.is_closed(6));
}

#[test]
fn frames_wait_for_their_connection() {
    let mut r = Reassembler::new(WINDOW);
    assert!(r.handle_frame(data(5, 2, "b"), 0).is_empty());
    assert!(r.handle_frame(Frame::fin(5, 4), 0).is_empty());
    assert_eq!((r.pending_cids(), r.pending_bytes()), (1, 1));
    assert_eq!(told(&r.handle_frame(syn(5, PROTO_TCP), 1)), ["connect 5 example.com:80"]);
    assert!(r.is_handshaking(5));
    assert!(r.handle_frame(syn(5, PROTO_TCP), 1).is_empty());
    assert!(r.handle_frame(data(5, 1, "a"), 2).is_empty());
    assert_eq!((r.pending_bytes(), r.handshakes()), (2, 1));
    let (token, actions) = r.connected(5, false, 3);
    assert_eq!(told(&actions), ["deliver 5 [a|b] None", "arm 5"]);
    assert_eq!((r.pending_cids(), r.pending_bytes(), r.handshakes()), (0, 0, 0));
    assert!(r.has_conn(5));
    let token = token.unwrap();
    assert!(r.delivered(5, token, None, true, 3).is_empty());
    assert!(r.handle_frame(syn(5, PROTO_TCP), 3).is_empty());
    assert_eq!(told(&r.handle_frame(data(5, 3, "c"), 4)), ["deliver 5 [c] Some(1)"]);
    assert_eq!(told(&r.delivered(5, token, Some(1), true, 4)), ["close 5"]);
    assert_eq!(told(&r.egress_ended(5, token, true, 5)), ["release 5"]);
    assert!(r.is_closed(5) && !r.has_conn(5));
    assert_eq!(told(&r.handle_frame(data(5, 4, "d"), 6)), ["rst 5"]);
    assert!(r.handle_frame(Frame::fin(5, 4), 6).is_empty());
    assert!(r.handle_frame(syn(5, PROTO_TCP), 6).is_empty());
}

#[test]
fn datagrams_wait_and_are_forwarded() {
    let mut r = Reassembler::new(WINDOW);
    assert!(r.handle_frame(data(5, 7, "x"), 0).is_empty());
    assert!(r.handle_frame(Frame::fin(5, 8), 0).is_empty());
    assert!(r.handle_frame(data(5, 7, "y"), 0).is_empty());
    assert_eq!(told(&r.handle_frame(syn(5, PROTO_UDP), 0)), ["bind 5"]);
    let (token, actions) = r.connected(5, true, 0);
    assert!(token.is_some());
    assert_eq!(told(&actions), ["forward 5 x", "forward 5 y"]);
    assert_eq!(told(&r.handle_frame(data(5, 1, "z"), 1)), ["forward 5 z"]);
    assert!(r.handle_frame(Frame::fin(5, 2), 1).is_empty());
    assert_eq!(told(&r.handle_frame(Frame::rst(5), 1)), ["teardown 5"]);
    assert_eq!(r.take_resets(), 1);
}

#[test]
fn a_reset_cancels_the_handshake() {
    let mut r = Reassembler::new(WINDOW);
    r.handle_frame(syn(5, PROTO_TCP), 0);
    assert_eq!(told(&r.handle_frame(Frame::rst(5), 1)), ["cancel 5"]);
    r.handshake_cancelled(5, 2);
    assert!(r.is_closed(5) && !r.is_handshaking(5));
    assert_eq!(r.pending_cids(), 0);
    r.handle_frame(syn(6, PROTO_TCP), 0);
    r.handle_frame(Frame::rst(6), 1);
    let (token, actions) = r.connected(6, false, 2);
    assert!(token.is_none() && actions.is_empty() && !r.has_conn(6));
    assert!(r.handle_frame(Frame::rst(7), 3).is_empty());
    assert!(r.handle_frame(syn(7, PROTO_TCP), 4).is_empty());
    assert!(!r.is_handshaking(7));
}

#[test]
fn a_failed_connect_is_reported() {
    let mut r = Reassembler::new(WINDOW);
    r.handle_frame(syn(5, PROTO_TCP), 0);
    r.handle_frame(data(5, 1, "a"), 0);
    assert_eq!(told(&r.egress_failed(5, 1)), ["rst 5"]);
    assert!(r.is_closed(5) && !r.is_handshaking(5));
    assert_eq!((r.pending_cids(), r.pending_bytes()), (0, 0));
}

#[test]
fn data_is_put_in_order_for_the_target() {
    let (mut r, token) = connected(5);
    assert_eq!(told(&r.handle_frame(data(5, 2, "b"), 1)), ["deliver 5 [] Some(1)"]);
    assert!(r.handle_frame(data(5, 2, "b"), 1).is_empty());
    assert_eq!(told(&r.handle_frame(data(5, 1, "a"), 1)), ["deliver 5 [a|b] Some(1)"]);
    assert!(r.delivered(5, token, Some(1), true, 1).is_empty());
    assert!(r.delivered(5, token + 1, Some(1), false, 1).is_empty());
    assert_eq!(told(&r.delivered(5, token, Some(1), false, 1)), ["teardown 5", "rst 5"]);
    assert!(r.is_closed(5) && !r.has_conn(5));
    assert_eq!(r.take_resets(), 1);
}

#[test]
fn an_overflowing_window_resets() {
    let mut r = Reassembler::new(2);
    r.handle_frame(syn(5, PROTO_TCP), 0);
    r.connected(5, false, 0);
    assert_eq!(told(&r.handle_frame(data(5, 2, "bb"), 1)), ["deliver 5 [] Some(2)"]);
    assert_eq!(told(&r.handle_frame(data(5, 3, "c"), 1)), ["teardown 5", "rst 5"]);
    let mut r = Reassembler::new(2);
    r.handle_frame(data(6, 2, "bb"), 0);
    r.handle_frame(data(6, 3, "c"), 0);
    r.handle_frame(syn(6, PROTO_TCP), 0);
    let (token, actions) = r.connected(6, false, 0);
    assert!(token.is_none());
    assert_eq!(told(&actions), ["teardown 6", "rst 6"]);
}

#[test]
fn the_write_half_closes_when_complete_or_by_force() {
    let (mut r, token) = connected(5);
    assert_eq!(told(&r.handle_frame(Frame::fin(5, 1), 1)), ["arm 5", "close 5"]);
    assert!(r.handle_frame(Frame::fin(5, 9), 1).is_empty());
    assert!(r.half_close_timeout(5, token).is_empty());
    assert!(r.has_conn(5));
    let (mut r, token) = connected(6);
    assert_eq!(told(&r.handle_frame(Frame::fin(6, 3), 1)), ["arm 6"]);
    assert!(r.half_close_timeout(6, token + 1).is_empty());
    assert_eq!(told(&r.half_close_timeout(6, token)), ["close 6"]);
    assert!(r.half_close_timeout(6, token).is_empty());
    assert_eq!(told(&r.egress_ended(6, token, true, 2)), ["release 6"]);
}

#[test]
fn responses_are_counted_and_failures_told() {
    let (mut r, token) = connected(5);
    r.response_sent(5, token, 10, 100 * SECOND);
    assert!(r.sweep(400 * SECOND).is_empty());
    assert_eq!(told(&r.egress_ended(5, token, false, 0)), ["rst 5"]);
    assert!(r.has_conn(5));
    assert_eq!(told(&r.egress_ended(5, token + 1, false, 0)), ["rst 5"]);
    assert!(r.response_failed(5, token + 1, 0).is_empty());
    assert_eq!(told(&r.response_failed(5, token, 0)), ["teardown 5", "rst 5"]);
    assert_eq!(r.take_resets(), 1);
}

#[test]
fn what_is_out_of_date_is_swept() {
    let (mut r, _) = connected(5);
    r.handle_frame(syn(6, PROTO_UDP), 0);
    r.connected(6, true, 0);
    r.handle_frame(data(7, 1, "a"), 0);
    r.handle_frame(syn(8, PROTO_TCP), 0);
    assert!(r.sweep(29 * SECOND).is_empty());
    let mut swept = told(&r.sweep(30 * SECOND));
    swept.sort();
    assert_eq!(swept, ["cancel 8", "rst 7", "rst 8"]);
    assert_eq!((r.pending_cids(), r.pending_bytes()), (0, 0));
    assert!(r.is_closed(7) && r.is_closed(8));
    assert_eq!(told(&r.sweep(61 * SECOND)), ["teardown 6", "rst 6"]);
    assert!(r.is_closed(7));
    assert!(r.sweep(90 * SECOND).is_empty());
    assert!(!r.is_closed(7) && r.is_closed(6));
    assert!(r.is_handshaking(8));
    assert!(r.sweep(120 * SECOND).is_empty());
    assert!(!r.is_handshaking(8));
    assert_eq!(told(&r.sweep(301 * SECOND)), ["teardown 5", "rst 5"]);
    assert_eq!(r.active(), 0);
}

#[test]
fn the_oldest_makes_room_when_too_much_waits() {
    let mut r = Reassembler::new(WINDOW);
    let chunk = Bytes::from(vec![0u8; MAX_PAYLOAD]);
    let fit = MAX_PENDING_BYTES / MAX_PAYLOAD;
    r.handle_frame(Frame::data(1, 1, chunk.clone()), 1);
    let per = MAX_PENDING_FRAMES_PER_CID;
    for i in 1..fit {
        let cid = 2 + (i / per) as u32;
        assert!(r.handle_frame(Frame::data(cid, i as u64, chunk.clone()), 2).is_empty());
    }
    assert_eq!(r.pending_bytes(), fit * MAX_PAYLOAD);
    let actions = r.handle_frame(Frame::data(99, 1, chunk.clone()), 3);
    assert_eq!(told(&actions), ["rst 1"]);
    assert!(r.is_closed(1));
    assert_eq!(r.pending_bytes(), fit * MAX_PAYLOAD);
    assert!(r.pending_bytes() <= MAX_PENDING_BYTES);
}

#[test]
fn responses_are_wrapped() {
    let mut source = FrameSource::new(5);
    source.sent();
    let mapped = IpAddress::V6(0xffff_0102_0304);
    let from = SocketAddress { ip: mapped, port: 53 };
    let f = udp_response(&source, from, b"answer").unwrap();
    assert_eq!((f.conn_id, f.seq, f.flags), (5, 2, FLAG_DATA));
    let (who, what) = decode_udp_datagram(&f.payload).unwrap();
    assert_eq!((who.address.as_str(), who.port, &what[..]), ("1.2.3.4", 53, &b"answer"[..]));
    let v4 = SocketAddress { ip: IpAddress::V4(1), port: 53 };
    let big = vec![0u8; MAX_PAYLOAD - 10];
    assert_eq!(udp_response(&source, v4, &big).unwrap().payload.len(), MAX_PAYLOAD);
    assert!(udp_response(&source, v4, &vec![0u8; MAX_PAYLOAD - 9]).is_none());
}

#[test]
fn lost_responses_reset_their_connection() {
    let lost = vec![data(5, 1, "a"), Frame::fin(6, 2), Frame::rst(7), data(5, 2, "b")];
    let again: Vec<(u32, u8)> =
        replace_lost(lost).iter().map(|f| (f.conn_id, f.flags)).collect();
    assert_eq!(again, [(5, FLAG_RST), (6, FLAG_FIN), (7, FLAG_RST), (5, FLAG_RST)]);
}
