use bytes::Bytes;
use round_robin::addr::{IpAddress, SocketAddress};
use round_robin::clock::SECOND;
use round_robin::frame::{Frame, FLAG_DATA, FLAG_FIN, FLAG_RST};
use round_robin::socks5::TargetAddr;
use round_robin::splitter::{
    after_fin, declared_client, fin_sweep_decision, is_tried_again, reconnect_delay_secs,
    stop_reason, wants_fin, Action, CloseReason, Draw, Farewell, Grace, Splitter, Traffic, UdpRelay,
    MAX_CONCURRENT_CONNS, MAX_ID_DRAWS,
};

const WINDOW: usize = 1 << 20;

fn data(cid: u32, seq: u64, text: &'static str) -> Frame {
    Frame::data(cid, seq, Bytes::from_static(text.as_bytes()))
}

/// Actions as short texts, with the chunks that are queued joined by `|`.
fn told(actions: &[Action]) -> Vec<String> {
    actions
        .iter()
        .map(|a| match a {
            Action::Send(f) => match f.flags {
                FLAG_RST => format!("rst {}", f.conn_id),
                FLAG_FIN => format!("fin {} {}", f.conn_id, f.seq),
                FLAG_DATA => format!("data {} {}", f.conn_id, f.seq),
                _ => format!("syn {}", f.conn_id),
            },
            Action::Deliver { cid, chunks, count, .. } => {
                let all: Vec<&str> =
                    chunks.iter().map(|c| std::str::from_utf8(c).unwrap()).collect();
                format!("deliver {cid} [{}] {count}", all.join("|"))
            }
            Action::Wake { cid, .. } => format!("wake {cid}"),
            Action::Stop { cid, reset, .. } => format!("stop {cid} {reset}"),
        })
        .collect()
}

#[test]
fn fin_sweep_keeps_active_upload_alive() {
    assert!(!fin_sweep_decision(true, 0, true));
    assert!(!fin_sweep_decision(true, 30, true));
    assert!(!fin_sweep_decision(false, 0, true));
}

#[test]
fn fin_sweep_reclaims_idle_and_incomplete() {
    assert!(fin_sweep_decision(true, 31, true));
    assert!(fin_sweep_decision(false, 301, true));
    assert!(fin_sweep_decision(false, 31, false));
    assert!(!fin_sweep_decision(true, 10, false));
}

#[test]
fn data_is_put_in_order_for_the_client() {
    let mut s = Splitter::new(WINDOW);
    let token = s.open_conn(5, false, 0);
    assert_eq!(told(&s.handle_inbound_frame(data(5, 2, "b"), 1)), ["deliver 5 [] 1"]);
    assert!(s.delivered(5, token, 1, true, 1).is_empty());
    assert_eq!(told(&s.handle_inbound_frame(data(5, 1, "a"), 2)), ["deliver 5 [a|b] 1"]);
    assert!(told(&s.handle_inbound_frame(data(5, 1, "a"), 2)).is_empty());
    assert_eq!(told(&s.handle_inbound_frame(Frame::fin(5, 3), 3)), ["wake 5"]);
    assert_eq!(told(&s.handle_inbound_frame(data(5, 3, "c"), 3)), ["deliver 5 [c] 1"]);
    assert_eq!(s.active(), 1);
}

#[test]
fn a_refused_chunk_resets_a_tcp_connection() {
    let mut s = Splitter::new(WINDOW);
    let token = s.open_conn(5, false, 0);
    assert!(s.delivered(5, token + 1, 1, false, 1).is_empty());
    assert_eq!(told(&s.delivered(5, token, 1, false, 1)), ["stop 5 true", "rst 5"]);
    assert!(!s.has_conn(5));
    assert!(!s.conn_id_is_free(5));
    assert_eq!(s.take_resets(), 1);
    assert_eq!(s.take_resets(), 0);
    assert_eq!(told(&s.handle_inbound_frame(data(5, 1, "a"), 2)), ["rst 5"]);
}

#[test]
fn a_full_window_resets_both_ends() {
    let mut s = Splitter::new(2);
    s.open_conn(5, false, 0);
    assert_eq!(told(&s.handle_inbound_frame(data(5, 2, "bb"), 1)), ["deliver 5 [] 2"]);
    let last = told(&s.handle_inbound_frame(data(5, 3, "c"), 1));
    assert_eq!(last, ["stop 5 true", "rst 5"]);
}

#[test]
fn datagrams_go_straight_to_the_client() {
    let mut s = Splitter::new(WINDOW);
    let token = s.open_conn(5, true, 0);
    assert_eq!(told(&s.handle_inbound_frame(data(5, 9, "x"), 1)), ["deliver 5 [x] 1"]);
    assert_eq!(told(&s.handle_inbound_frame(data(5, 9, "x"), 1)), ["deliver 5 [x] 1"]);
    assert!(s.delivered(5, token, 1, false, 1).is_empty());
    assert!(s.handle_inbound_frame(Frame::fin(5, 1), 1).is_empty());
    assert!(s.has_conn(5));
    assert_eq!(told(&s.close_conn(5, token, true, 2)), ["rst 5"]);
    assert!(!s.has_conn(5));
}

#[test]
fn an_rst_is_final() {
    let mut s = Splitter::new(WINDOW);
    s.open_conn(5, false, 0);
    assert_eq!(told(&s.handle_inbound_frame(Frame::rst(5), 1)), ["stop 5 true", "rst 5"]);
    assert_eq!(told(&s.handle_inbound_frame(Frame::rst(5), 1)), ["rst 5"]);
    let none = Frame { conn_id: 5, seq: 0, flags: 0, payload: Bytes::new() };
    assert!(s.handle_inbound_frame(none, 1).is_empty());
}

#[test]
fn lost_frames_are_made_up_for() {
    let mut s = Splitter::new(WINDOW);
    s.open_conn(5, false, 0);
    s.open_conn(6, false, 0);
    let lost = vec![
        Frame::syn(6, Bytes::new()),
        data(5, 1, "a"),
        data(5, 2, "b"),
        data(9, 1, "c"),
        Frame::fin(6, 4),
    ];
    let actions = told(&s.recover_lost(lost, 1));
    assert_eq!(actions, ["syn 6", "stop 5 true", "rst 5", "fin 6 4"]);
    assert!(!s.has_conn(5) && s.has_conn(6));
}

#[test]
fn ids_rest_before_they_are_used_again() {
    let mut s = Splitter::new(WINDOW);
    assert!(!s.conn_id_is_free(0) && s.conn_id_is_free(5));
    let token = s.open_conn(5, false, 0);
    assert!(!s.conn_id_is_free(5));
    assert!(s.close_conn(5, token, false, 10 * SECOND).is_empty());
    assert_eq!((s.active(), s.waiting_ids()), (0, 1));
    assert!(s.sweep(69 * SECOND).is_empty());
    assert!(!s.conn_id_is_free(5));
    assert!(s.sweep(70 * SECOND).is_empty());
    assert!(s.conn_id_is_free(5));
    let token = s.open_conn(5, false, 80 * SECOND);
    s.abort_conn(5, token + 1);
    assert!(s.has_conn(5));
    s.abort_conn(5, token);
    assert!(!s.has_conn(5) && s.conn_id_is_free(5));
}

#[test]
fn drawn_ids_are_free_and_differ() {
    let mut s = Splitter::new(WINDOW);
    let mut seen: Vec<u32> = Vec::new();
    for _ in 0..100 {
        let id = s.alloc_conn_id().unwrap();
        assert!(s.conn_id_is_free(id) && !seen.contains(&id));
        s.open_conn(id, false, 0);
        seen.push(id);
    }
    assert_eq!(s.active(), 100);
    assert!(seen.iter().any(|id| *id > u32::MAX / 2) && seen.iter().any(|id| *id < u32::MAX / 2));
}

#[test]
fn drawing_goes_on_until_an_id_is_free() {
    let mut s = Splitter::new(WINDOW);
    s.open_conn(5, false, 0);
    assert_eq!(s.take_draw(0, 6), Draw::Take(6));
    assert_eq!(s.take_draw(MAX_ID_DRAWS - 1, 6), Draw::Take(6));
    assert_eq!(s.take_draw(0, 5), Draw::Again);
    assert_eq!(s.take_draw(0, 0), Draw::Again);
    assert_eq!(s.take_draw(MAX_ID_DRAWS - 2, 5), Draw::Again);
    assert_eq!(s.take_draw(MAX_ID_DRAWS - 1, 5), Draw::GiveUp);
}

#[test]
fn datagrams_are_tried_three_times() {
    assert!(is_tried_again(0) && is_tried_again(2));
    assert!(!is_tried_again(3) && !is_tried_again(4));
}

#[test]
fn idle_connections_are_swept() {
    let mut s = Splitter::new(WINDOW);
    let tcp = s.open_conn(5, false, 0);
    s.open_conn(6, true, 0);
    assert!(s.sweep(60 * SECOND).is_empty());
    assert_eq!(told(&s.sweep(61 * SECOND)), ["stop 6 false", "rst 6"]);
    s.data_sent(5, tcp, 10, 100 * SECOND);
    assert!(s.sweep(400 * SECOND).is_empty());
    assert_eq!(told(&s.sweep(401 * SECOND)), ["stop 5 false", "rst 5"]);
    assert_eq!(s.active(), 0);
    assert!(!s.conn_id_is_free(5));
}

#[test]
fn connections_nobody_looks_after_are_swept() {
    let mut s = Splitter::new(WINDOW);
    let token = s.open_conn(5, false, 0);
    s.handler_gone(5, token + 1);
    assert!(s.sweep(1).is_empty());
    s.handler_gone(5, token);
    assert_eq!(told(&s.sweep(1)), ["rst 5"]);
}

#[test]
fn ended_responses_are_swept_when_quiet() {
    let mut s = Splitter::new(WINDOW);
    let token = s.open_conn(5, false, 0);
    s.handle_inbound_frame(Frame::fin(5, 1), 0);
    assert!(s.sweep(30 * SECOND).is_empty());
    s.data_sent(5, token, 1, 20 * SECOND);
    assert!(s.sweep(50 * SECOND).is_empty());
    s.begin_grace(5, token);
    assert!(s.sweep(500 * SECOND).is_empty());
    let token = s.open_conn(6, false, 0);
    s.handle_inbound_frame(Frame::fin(6, 1), 0);
    assert_eq!(told(&s.sweep(31 * SECOND)), ["stop 6 false", "rst 6"]);
    assert_eq!(s.grace_step(6, token, None, 0), Grace::Over);
}

#[test]
fn a_closing_connection_waits_for_the_rest() {
    let mut s = Splitter::new(WINDOW);
    let token = s.open_conn(5, false, 0);
    s.begin_grace(5, token);
    let wait = |seen| Grace::Wait { fin_seen_at: seen };
    assert_eq!(s.grace_step(5, token, None, 59 * SECOND), wait(None));
    assert_eq!(s.grace_step(5, token, None, 60 * SECOND), Grace::Over);
    s.handle_inbound_frame(Frame::fin(5, 2), 10 * SECOND);
    assert_eq!(s.grace_step(5, token, None, 10 * SECOND), wait(Some(10 * SECOND)));
    let seen = Some(10 * SECOND);
    assert_eq!(s.grace_step(5, token, seen, 25 * SECOND - 1), wait(seen));
    assert_eq!(s.grace_step(5, token, seen, 25 * SECOND), Grace::Over);
    s.handle_inbound_frame(data(5, 1, "a"), 11 * SECOND);
    assert_eq!(s.grace_step(5, token, seen, 11 * SECOND), Grace::Over);
    assert_eq!(s.grace_step(5, token + 1, seen, 11 * SECOND), Grace::Over);
}

#[test]
fn connections_are_limited() {
    let mut s = Splitter::new(WINDOW);
    assert!(!s.at_capacity(MAX_CONCURRENT_CONNS - 1));
    assert!(s.at_capacity(MAX_CONCURRENT_CONNS));
    assert!(s.at_capacity(usize::MAX));
    s.open_conn(5, false, 0);
    assert!(s.at_capacity(MAX_CONCURRENT_CONNS - 1));
    assert!(!s.at_capacity(MAX_CONCURRENT_CONNS - 2));
}

#[test]
fn reconnecting_backs_off() {
    let delays: Vec<u64> = (0..6).map(reconnect_delay_secs).collect();
    assert_eq!(delays, [3, 6, 12, 24, 24, 24]);
    assert_eq!(reconnect_delay_secs(u32::MAX), 24);
}

#[test]
fn the_other_end_is_told_of_every_close() {
    assert!(wants_fin(CloseReason::Eof) && wants_fin(CloseReason::ReadError));
    assert!(wants_fin(stop_reason(false)) && !wants_fin(stop_reason(true)));
    assert!(!wants_fin(CloseReason::NoTunnel));
    let after = |reason, sent| after_fin(reason, sent);
    assert_eq!(after(CloseReason::Eof, true), Farewell { rst: false, grace: true });
    assert_eq!(after(CloseReason::Eof, false), Farewell { rst: true, grace: false });
    assert_eq!(after(CloseReason::Swept, true), Farewell { rst: false, grace: false });
    assert_eq!(after(CloseReason::NoTunnel, false), Farewell { rst: true, grace: false });
    assert_eq!(after(CloseReason::Reset, false), Farewell { rst: false, grace: false });
}

#[test]
fn a_udp_relay_serves_one_client() {
    let at = |ip: u32, port: u16| SocketAddress { ip: IpAddress::V4(ip), port };
    let mut relay = UdpRelay::new(None);
    assert_eq!(relay.reply_to(), None);
    assert!(relay.accepts(at(1, 10)));
    assert!(relay.accepts(at(1, 10)));
    assert!(!relay.accepts(at(1, 11)) && !relay.accepts(at(2, 10)));
    assert_eq!(relay.reply_to(), Some(at(1, 10)));
    let named = |address: &str, port| {
        declared_client(&TargetAddr { address: address.into(), port })
    };
    assert_eq!(named("0.0.0.0", 10), None);
    assert_eq!(named("127.0.0.1", 0), None);
    assert_eq!(named("localhost", 10), None);
    assert_eq!(named("0000:0000:0000:0000:0000:0000:0000:0000", 10), None);
    assert_eq!(named("127.0.0.1", 10), Some(at(0x7f00_0001, 10)));
    let v6 = SocketAddress { ip: IpAddress::V6((0x2001 << 112) + 1), port: 10 };
    assert_eq!(named("2001::1", 10), Some(v6));
    let mut relay = UdpRelay::new(named("127.0.0.1", 10));
    assert!(!relay.accepts(at(1, 10)) && relay.accepts(at(0x7f00_0001, 10)));
}

#[test]
fn traffic_is_counted() {
    let mut s = Splitter::new(WINDOW);
    let token = s.open_conn(5, false, 7);
    s.data_sent(5, token, 10, 8);
    s.data_sent(5, token + 1, 10, 8);
    s.delivered(5, token, 3, true, 8);
    s.delivered(5, token, 4, true, 8);
    let want = Traffic {
        bytes_sent: 10,
        bytes_recv: 7,
        frames_sent: 1,
        frames_recv: 2,
        created_at: 7,
    };
    assert_eq!(s.traffic(5, token), Some(want));
    assert_eq!(s.traffic(5, token + 1), None);
    assert_eq!(s.traffic(6, token), None);
}
