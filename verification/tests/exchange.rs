use bytes::Bytes;
use round_robin::frame::{Frame, FrameSource, SynTarget, PROTO_TCP};
use round_robin::reassembler::{Action, Reassembler};
use round_robin::splitter::{Action as ClientAction, Grace, Splitter};

const WINDOW: usize = 1 << 20;
const CID: u32 = 7;

/// What the target of the connection gets: where to, the bytes, and whether they end.
#[derive(Default)]
struct Target {
    connects: Vec<String>,
    read: Vec<u8>,
    ends: usize,
}

/// Carries out what the far end asks for.
fn carry_out(far: &mut Reassembler, target: &mut Target, actions: Vec<Action>, now: u64) {
    for action in actions {
        match action {
            Action::Connect { target: to, .. } => {
                target.connects.push(format!("{}:{}", to.address, to.port));
            }
            Action::Deliver { cid, token, chunks, count } => {
                assert!(target.ends == 0 || chunks.is_empty(), "nothing follows the end");
                for chunk in &chunks {
                    target.read.extend_from_slice(chunk);
                }
                let more = far.delivered(cid, token, count, true, now);
                carry_out(far, target, more, now);
            }
            Action::CloseWrite { .. } => target.ends += 1,
            Action::ArmForceClose { .. } => {}
            other => panic!("unexpected {other:?}"),
        }
    }
}

/// Carries out what the near end asks for. Gives back the chunks for the client.
fn hand_over(near: &mut Splitter, actions: Vec<ClientAction>, now: u64) -> Vec<u8> {
    let mut read = Vec::new();
    for action in actions {
        match action {
            ClientAction::Deliver { cid, token, chunks, count } => {
                for chunk in &chunks {
                    read.extend_from_slice(chunk);
                }
                assert!(near.delivered(cid, token, count, true, now).is_empty());
            }
            ClientAction::Wake { .. } => {}
            other => panic!("unexpected {other:?}"),
        }
    }
    read
}

/// The numbered frames of one direction, and its end.
fn stream(data: &[u8], chunk: usize) -> Vec<Frame> {
    let mut source = FrameSource::new(CID);
    let mut frames = Vec::new();
    for part in data.chunks(chunk) {
        frames.push(source.data(part));
        source.sent();
    }
    frames.push(source.fin());
    frames
}

/// The order of frames that are dealt to three tunnels of which one comes last.
fn one_slow_tunnel(n: usize, slow: usize) -> Vec<usize> {
    let mut order: Vec<usize> = (0..n).filter(|i| i % 3 != slow).collect();
    order.extend((0..n).filter(|i| i % 3 == slow));
    order
}

fn syn() -> Frame {
    let target = SynTarget { proto: PROTO_TCP, address: "example.com".to_string(), port: 80 };
    Frame::syn(CID, target.encode().unwrap())
}

/// One exchange: `early` frames come before the target is reached. Gives back what the
/// client has read when its wait is over.
fn exchange(request: &[u8], slow: usize, early: usize, extra: bool) -> Vec<u8> {
    let mut near = Splitter::new(WINDOW);
    let token = near.open_conn(CID, false, 0);
    let mut far = Reassembler::new(WINDOW);
    let mut target = Target::default();

    let mut frames = vec![syn()];
    frames.extend(stream(request, 10));
    let order = one_slow_tunnel(frames.len(), slow);
    let early = early.max(1 + order.iter().position(|&k| k == 0).unwrap());
    for &k in &order[..early] {
        let actions = far.handle_frame(frames[k].clone(), 1);
        carry_out(&mut far, &mut target, actions, 1);
    }
    assert!(target.read.is_empty() && target.ends == 0);
    let (egress, actions) = far.connected(CID, false, 2);
    let egress = egress.unwrap();
    carry_out(&mut far, &mut target, actions, 2);
    for &k in &order[early..] {
        assert!(request.starts_with(&target.read));
        let actions = far.handle_frame(frames[k].clone(), 3);
        carry_out(&mut far, &mut target, actions, 3);
    }
    if extra {
        for frame in &frames {
            let actions = far.handle_frame(frame.clone(), 4);
            carry_out(&mut far, &mut target, actions, 4);
        }
    }
    assert_eq!(target.connects, ["example.com:80"]);
    assert_eq!(target.read, request);
    assert_eq!(target.ends, 1);

    let response = [b"PONG:", &target.read[..], b":DONE"].concat();
    let frames = stream(&response, 7);
    for frame in &frames {
        far.response_sent(CID, egress, frame.payload.len() as u64, 5);
    }
    let last = far.egress_ended(CID, egress, true, 5);
    assert!(matches!(last[..], [Action::Release { cid: CID }]));
    assert!(!far.has_conn(CID) && far.is_closed(CID));

    let order = one_slow_tunnel(frames.len(), slow);
    let mut read = Vec::new();
    for (i, &k) in order.iter().enumerate() {
        let over = near.grace_step(CID, token, None, 6) == Grace::Over;
        assert!(!over, "the wait goes on at frame {i}");
        let actions = near.handle_inbound_frame(frames[k].clone(), 6);
        read.extend(hand_over(&mut near, actions, 6));
        assert!(response.starts_with(&read));
    }
    assert_eq!(near.grace_step(CID, token, None, 6), Grace::Over);
    assert!(near.close_conn(CID, token, false, 7).is_empty());
    assert!(!near.has_conn(CID));
    read
}

#[test]
fn a_request_is_answered_whichever_tunnel_is_slow() {
    let request: Vec<u8> = (0..997u32).map(|i| (i * 7 % 251) as u8).collect();
    let answer = [b"PONG:", &request[..], b":DONE"].concat();
    for slow in 0..3 {
        for early in [0, 1, 50, 90] {
            assert_eq!(exchange(&request, slow, early, false), answer);
        }
    }
}

#[test]
fn frames_that_come_twice_change_nothing() {
    let request = b"The quick brown fox jumps over the lazy dog".to_vec();
    let answer = [b"PONG:", &request[..], b":DONE"].concat();
    assert_eq!(exchange(&request, 1, 2, true), answer);
}

#[test]
fn an_empty_request_is_answered_too() {
    assert_eq!(exchange(b"", 2, 1, true), b"PONG::DONE");
}

#[test]
fn the_end_may_come_first() {
    let mut far = Reassembler::new(WINDOW);
    let mut target = Target::default();
    for frame in [Frame::fin(CID, 2), syn()] {
        let actions = far.handle_frame(frame, 1);
        carry_out(&mut far, &mut target, actions, 1);
    }
    let (_, actions) = far.connected(CID, false, 2);
    carry_out(&mut far, &mut target, actions, 2);
    assert_eq!((target.read.len(), target.ends), (0, 0));
    let actions = far.handle_frame(Frame::data(CID, 1, Bytes::from_static(b"hi")), 3);
    carry_out(&mut far, &mut target, actions, 3);
    assert_eq!((&target.read[..], target.ends), (&b"hi"[..], 1));
}

#[test]
fn connections_do_not_touch_each_other() {
    let mut near = Splitter::new(WINDOW);
    near.open_conn(CID, false, 0);
    near.open_conn(CID + 1, false, 0);
    let text = |s: &'static str| Bytes::from_static(s.as_bytes());
    let actions = near.handle_inbound_frame(Frame::data(CID, 2, text("b")), 1);
    assert!(hand_over(&mut near, actions, 1).is_empty());
    let actions = near.handle_inbound_frame(Frame::data(CID + 1, 1, text("x")), 1);
    assert_eq!(hand_over(&mut near, actions, 1), b"x");
    near.handle_inbound_frame(Frame::rst(CID + 1), 1);
    assert!(!near.has_conn(CID + 1) && near.has_conn(CID));
    let actions = near.handle_inbound_frame(Frame::data(CID, 1, text("a")), 1);
    assert_eq!(hand_over(&mut near, actions, 1), b"ab");
}
