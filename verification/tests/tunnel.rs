use bytes::{Bytes, BytesMut};
use round_robin::clock::SECOND;
use round_robin::frame::{Frame, FLAG_RST, MAX_PAYLOAD};
use round_robin::tunnel::{
    after_chunk, after_chunk_unless_refused, backlog, choose_below, first_chunk, offer_all,
    offer_until_refused, without_id, ChunkStep, Drain, Offer, RoundStep, SendStep, TunnelLink,
    TunnelPool, Waited, MAX_TUNNEL_LINKS, TUNNEL_CHANNEL_CAP, WEIGHT_GRID,
};
use tokio::sync::mpsc;

fn mk_link(tx: mpsc::Sender<Frame>, rate: f64) -> TunnelLink {
    let mut link = TunnelLink::new(tx);
    link.rate_bps = rate.to_bits();
    link
}

/// Carries a frame as far as it goes without waiting: the first candidate is offered it,
/// then the next. Gives back what there is to wait for, if it was not taken.
fn try_to_send(pool: &mut TunnelPool, frame: &Frame) -> Option<SendStep> {
    let mut full: Vec<u64> = Vec::new();
    loop {
        match pool.plan_send(&full) {
            SendStep::Choose(ks) => {
                if pool.offer(ks[0], frame.clone(), &mut full) == Offer::Sent {
                    return None;
                }
            }
            wait => return Some(wait),
        }
    }
}

#[test]
fn queue_depth_ignores_dead_links() {
    let mut pool = TunnelPool::new();
    let (tx1, rx1) = mpsc::channel::<Frame>(TUNNEL_CHANNEL_CAP);
    let (tx2, rx2) = mpsc::channel::<Frame>(TUNNEL_CHANNEL_CAP);
    let live = tx1.clone();
    pool.add(mk_link(tx1, 0.0), 0);
    let dead = pool.add(mk_link(tx2, 0.0), 0);
    live.try_send(Frame::rst(1)).unwrap();
    pool.mark_dead(pool.find(dead).unwrap());
    drop(rx2);
    assert_eq!(pool.queue_depth(), 1, "only live links count");
    drop(live);
    drop(rx1);
}

#[test]
fn alive_count_ignores_dead_links() {
    let mut pool = TunnelPool::new();
    let (tx1, rx1) = mpsc::channel::<Frame>(4);
    let (tx2, rx2) = mpsc::channel::<Frame>(4);
    let live = mk_link(tx1, 0.0);
    let mut dead = mk_link(tx2, 0.0);
    dead.alive = false;
    pool.add(live, 0);
    pool.add(dead, 0);
    drop((rx1, rx2));
    assert_eq!(pool.link_count(), 2);
    assert_eq!(pool.alive_count(), 1);
    assert_eq!(pool.stats(), (1, 2));
}

#[test]
fn no_link_to_send_to() {
    let mut pool = TunnelPool::default();
    assert!(!pool.send(Frame::rst(1)));
    assert!(matches!(try_to_send(&mut pool, &Frame::rst(1)), Some(SendStep::WaitForLink)));
}

#[test]
fn closed_channels_are_dead_links() {
    let mut pool = TunnelPool::new();
    let (tx, rx) = mpsc::channel::<Frame>(4);
    pool.add(mk_link(tx, 0.0), 0);
    drop(rx);
    assert!(matches!(try_to_send(&mut pool, &Frame::rst(1)), Some(SendStep::WaitForLink)));
    assert_eq!(pool.stats(), (0, 1));
    pool.compact();
    assert_eq!(pool.stats(), (0, 0));
}

#[test]
fn a_new_link_takes_the_frame() {
    let mut pool = TunnelPool::new();
    let (tx, mut rx) = mpsc::channel::<Frame>(4);
    assert!(matches!(pool.plan_send(&vec![]), SendStep::WaitForLink));
    pool.add(mk_link(tx, 0.0), 0);
    assert!(try_to_send(&mut pool, &Frame::rst(7)).is_none());
    let got = rx.try_recv().unwrap();
    assert_eq!((got.conn_id, got.flags), (7, FLAG_RST));
}

#[test]
fn full_links_are_passed_over() {
    let mut pool = TunnelPool::new();
    let (tx_a, mut rx_a) = mpsc::channel::<Frame>(2);
    let (tx_b, mut rx_b) = mpsc::channel::<Frame>(2);
    tx_a.try_send(Frame::rst(9)).unwrap();
    tx_a.try_send(Frame::rst(10)).unwrap();
    pool.add(mk_link(tx_a, 100.0), 0);
    pool.add(mk_link(tx_b, 50.0), 0);
    assert!(try_to_send(&mut pool, &Frame::rst(7)).is_none());
    assert_eq!(rx_b.try_recv().unwrap().conn_id, 7);
    assert_eq!(rx_a.try_recv().unwrap().conn_id, 9);
    assert_eq!(rx_a.try_recv().unwrap().conn_id, 10);
    assert!(rx_a.try_recv().is_err());
}

#[test]
fn waits_for_the_fastest_of_full_links() {
    let mut pool = TunnelPool::new();
    let (tx_a, mut rx_a) = mpsc::channel::<Frame>(1);
    let (tx_b, _rx_b) = mpsc::channel::<Frame>(1);
    tx_a.try_send(Frame::rst(9)).unwrap();
    tx_b.try_send(Frame::rst(11)).unwrap();
    pool.add(mk_link(tx_a, 100.0), 0);
    pool.add(mk_link(tx_b, 50.0), 0);
    match try_to_send(&mut pool, &Frame::rst(7)) {
        Some(SendStep::WaitFor(k)) => assert_eq!(k, 0),
        other => panic!("{other:?}"),
    }
    rx_a.try_recv().unwrap();
    assert!(try_to_send(&mut pool, &Frame::rst(7)).is_none());
    assert_eq!(rx_a.try_recv().unwrap().conn_id, 7);
    pool.set_rate(1, 100.0f64.to_bits());
    assert_eq!(pool.best_live(), Some(1));
}

#[test]
fn control_frames_go_round() {
    let mut pool = TunnelPool::new();
    let mut readers = Vec::new();
    for _ in 0..3 {
        let (link, rx) = TunnelLink::open();
        pool.add(link, 0);
        readers.push(rx);
    }
    for id in 0..6 {
        assert!(pool.send(Frame::rst(id)));
    }
    for (i, rx) in readers.iter_mut().enumerate() {
        assert_eq!(rx.try_recv().unwrap().conn_id, i as u32);
        assert_eq!(rx.try_recv().unwrap().conn_id, i as u32 + 3);
        assert!(rx.try_recv().is_err());
    }
    assert_eq!(pool.queue_depth(), 0);
    drop(readers.remove(0));
    assert!(pool.send(Frame::rst(6)));
    assert_eq!(readers[0].try_recv().unwrap().conn_id, 6);
    assert_eq!(pool.stats(), (2, 3));
    drop(readers);
    assert!(!pool.send(Frame::rst(7)));
    assert_eq!(pool.stats(), (0, 3));
}

#[test]
fn a_channel_holds_so_many_frames() {
    let mut pool = TunnelPool::new();
    let (link, _rx) = TunnelLink::open();
    pool.add(link, 0);
    for _ in 0..TUNNEL_CHANNEL_CAP {
        assert!(pool.send(Frame::rst(1)));
    }
    assert!(!pool.send(Frame::rst(1)));
    assert_eq!(pool.queue_depth(), TUNNEL_CHANNEL_CAP);
    assert_eq!(pool.stats(), (1, 1));
    assert_eq!(backlog(&vec![128, 127, 0]), 129);
}

#[test]
fn compacting_keeps_the_live_and_starts_anew() {
    let mut pool = TunnelPool::new();
    let mut readers = Vec::new();
    for _ in 0..3 {
        let (link, rx) = TunnelLink::open();
        pool.add(link, 0);
        readers.push(rx);
    }
    assert_eq!((pool.next_anchor(), pool.next_anchor()), (0, 1));
    pool.compact();
    assert_eq!(pool.next_anchor(), 2);
    let gone = pool.link(1).id;
    pool.mark_dead(1);
    pool.compact();
    assert_eq!(pool.next_anchor(), 0);
    assert_eq!(pool.find(gone), None);
    assert_eq!((pool.find(1), pool.find(3)), (Some(0), Some(1)));
    for _ in 1..WEIGHT_GRID {
        pool.next_anchor();
    }
    assert_eq!(pool.next_anchor(), 0);
}

#[test]
fn links_are_counted() {
    let mut pool = TunnelPool::new();
    let mut readers = Vec::new();
    for i in 0..MAX_TUNNEL_LINKS {
        assert!(!pool.is_crowded());
        let (link, rx) = TunnelLink::open();
        assert_eq!(pool.add(link, 0), i as u64 + 1);
        readers.push(rx);
    }
    assert!(pool.is_crowded());
    pool.mark_dead(5);
    assert!(!pool.is_crowded());
    pool.count_sent(0, 100, 0);
    pool.count_sent(0, 50, 0);
    pool.count_received(0, 7, 0);
    let link = pool.link(0);
    assert_eq!((link.bytes_sent, link.frames_sent), (150, 2));
    assert_eq!((link.bytes_recv, link.frames_recv), (7, 1));
    assert_eq!(without_id(&vec![1, 2, 1, 3], 1), vec![2, 3]);
}

#[test]
fn weighted_choice_falls_on_the_first_below() {
    assert_eq!(choose_below(&vec![false, true, true]), 1);
    assert_eq!(choose_below(&vec![true, true]), 0);
    assert_eq!(choose_below(&vec![false, false]), 1);
}

#[test]
fn chunks_are_offered_in_order() {
    let chunks: Vec<Bytes> = [&b"a"[..], b"b", b"c"].map(Bytes::from_static).to_vec();
    let (mut tx, mut rx) = mpsc::channel::<Bytes>(2);
    assert_eq!(offer_all(&mut tx, &chunks), (false, vec![true, true, false]));
    assert_eq!(offer_until_refused(&mut tx, &chunks), (false, 0));
    assert_eq!(rx.try_recv().unwrap(), "a");
    assert_eq!(offer_until_refused(&mut tx, &chunks), (false, 1));
    assert_eq!(rx.try_recv().unwrap(), "b");
    assert_eq!(rx.try_recv().unwrap(), "a");
    assert_eq!(offer_until_refused(&mut tx, &chunks[..2].to_vec()), (true, 2));
    assert_eq!(offer_all(&mut tx, &vec![]), (true, vec![]));
    drop(rx);
    assert_eq!(offer_all(&mut tx, &chunks), (false, vec![false; 3]));
}

#[test]
fn a_refusal_stops_only_where_it_should() {
    assert_eq!(first_chunk(0), ChunkStep::Done(true));
    assert_eq!(first_chunk(3), ChunkStep::Offer(0));
    assert_eq!(after_chunk(0, 3, true, false), ChunkStep::Offer(1));
    assert_eq!(after_chunk(1, 3, false, true), ChunkStep::Offer(2));
    assert_eq!(after_chunk(2, 3, false, true), ChunkStep::Done(false));
    assert_eq!(after_chunk(2, 3, true, false), ChunkStep::Done(false));
    assert_eq!(after_chunk(2, 3, true, true), ChunkStep::Done(true));
    assert_eq!(after_chunk_unless_refused(0, 3, true), ChunkStep::Offer(1));
    assert_eq!(after_chunk_unless_refused(1, 3, false), ChunkStep::Done(false));
    assert_eq!(after_chunk_unless_refused(2, 3, true), ChunkStep::Done(true));
}

#[test]
fn a_stopped_writer_reports_what_it_did_not_write() {
    let mut drain = Drain::new();
    let mut buf = BytesMut::new();
    let f = Frame::data(7, 3, Bytes::from(vec![0u8; 8192]));
    assert!(drain.dequeue(Some(f.clone()), &mut buf));
    assert_eq!(buf[..], f.encode().unwrap()[..]);
    assert_eq!(drain.written(true), Some(8192));
    assert!(drain.dequeue(Some(f), &mut buf));
    assert!(!drain.is_dead());
    drain.stop();
    assert!(drain.is_dead());
    drain.leave(Frame::fin(7, 4));
    let lost = drain.into_lost();
    assert_eq!(lost.len(), 2, "in-flight frame must be reported as lost");
    assert_eq!((lost[0].conn_id, lost[0].seq), (7, 3));
    assert_eq!((lost[1].conn_id, lost[1].seq), (7, 4));
}

#[test]
fn a_writer_ends_with_its_channel_or_its_tunnel() {
    let mut buf = BytesMut::new();
    let mut drain = Drain::new();
    assert!(!drain.dequeue(None, &mut buf));
    assert!(drain.is_dead());
    assert!(drain.into_lost().is_empty());

    let mut drain = Drain::new();
    assert!(drain.dequeue(Some(Frame::rst(1)), &mut buf));
    assert_eq!(drain.written(false), None);
    assert!(drain.is_dead());
    let lost = drain.into_lost();
    assert_eq!(lost.len(), 1, "a frame that could not be written is lost");
    assert_eq!((lost[0].conn_id, lost[0].flags), (1, FLAG_RST));

    let mut drain = Drain::new();
    let huge = Frame::data(1, 1, Bytes::from(vec![0u8; MAX_PAYLOAD + 1]));
    assert!(!drain.dequeue(Some(huge), &mut buf));
    assert!(drain.is_dead());
    assert_eq!(drain.into_lost()[0].conn_id, 1);
}

#[test]
fn a_round_goes_on_after_each_refusal() {
    let mut pool = TunnelPool::new();
    let mut readers = Vec::new();
    for _ in 0..4 {
        let (link, rx) = TunnelLink::open();
        pool.add(link, 0);
        readers.push(rx);
    }
    pool.mark_dead(3);
    // From the third link on: places 0 to 3 are the links 2, 3, 0 and 1.
    assert_eq!(pool.first_offer(2), RoundStep::Offer(0));
    assert_eq!(pool.first_offer(3), RoundStep::Offer(1));
    assert_eq!(pool.after_offer(2, 0, Offer::Sent), RoundStep::Done(true));
    assert_eq!(pool.after_offer(2, 0, Offer::Full), RoundStep::Offer(2));
    assert_eq!(pool.stats(), (3, 4), "a full link stays alive");
    assert_eq!(pool.after_offer(2, 2, Offer::Closed), RoundStep::Offer(3));
    assert!(!pool.link(0).alive, "a closed link is dead");
    assert_eq!(pool.stats(), (2, 4));
    assert_eq!(pool.after_offer(2, 3, Offer::Full), RoundStep::Done(false));
    pool.mark_dead(1);
    pool.mark_dead(2);
    assert_eq!(pool.first_offer(1), RoundStep::Done(false));
}

#[test]
fn sending_passes_full_closed_and_dead_links() {
    let mut pool = TunnelPool::new();
    let (tx_full, rx_full) = mpsc::channel::<Frame>(1);
    tx_full.try_send(Frame::rst(9)).unwrap();
    let (tx_closed, rx_closed) = mpsc::channel::<Frame>(1);
    drop(rx_closed);
    let (tx_dead, mut rx_dead) = mpsc::channel::<Frame>(1);
    let (tx_free, mut rx_free) = mpsc::channel::<Frame>(1);
    pool.add(mk_link(tx_full, 0.0), 0);
    pool.add(mk_link(tx_closed, 0.0), 0);
    pool.add(mk_link(tx_dead, 0.0), 0);
    pool.add(mk_link(tx_free, 0.0), 0);
    pool.mark_dead(2);
    assert!(pool.send(Frame::rst(7)));
    assert_eq!(rx_free.try_recv().unwrap().conn_id, 7);
    assert!(rx_dead.try_recv().is_err());
    assert!(pool.link(0).alive && !pool.link(1).alive && pool.link(3).alive);
    assert!(pool.send(Frame::rst(8)));
    assert!(!pool.send(Frame::rst(10)), "both live links are full");
    assert_eq!(pool.stats(), (2, 4));
    drop(rx_full);
}

#[test]
fn a_wait_in_vain_tries_every_link_again() {
    let mut pool = TunnelPool::new();
    let (tx_a, _rx_a) = mpsc::channel::<Frame>(1);
    let (tx_b, mut rx_b) = mpsc::channel::<Frame>(1);
    tx_a.try_send(Frame::rst(9)).unwrap();
    tx_b.try_send(Frame::rst(11)).unwrap();
    let a = pool.add(mk_link(tx_a, 100.0), 0);
    let b = pool.add(mk_link(tx_b, 50.0), 0);
    let full = vec![a, b];
    assert!(matches!(pool.plan_send(&full), SendStep::WaitFor(0)));
    assert_eq!(rx_b.try_recv().unwrap().conn_id, 11);
    let again = pool.after_wait(a, Waited::TimedOut, &full).unwrap();
    assert!(again.is_empty());
    assert!(try_to_send(&mut pool, &Frame::rst(7)).is_none());
    assert_eq!(rx_b.try_recv().unwrap().conn_id, 7, "the slower link has a free slot");

    assert!(pool.after_wait(a, Waited::Taken, &full).is_none());
    assert_eq!(pool.stats(), (2, 2));
    assert_eq!(pool.after_wait(a, Waited::Closed, &full), Some(vec![b]));
    assert!(!pool.link(0).alive && pool.link(1).alive);
    assert_eq!(pool.after_wait(77, Waited::Closed, &full), Some(vec![a, b]));
    assert_eq!(pool.stats(), (1, 2));
}

#[test]
fn silent_links_are_given_up() {
    let mut pool = TunnelPool::new();
    let mut readers = Vec::new();
    for _ in 0..4 {
        let (link, rx) = TunnelLink::open();
        pool.add(link, SECOND);
        readers.push(rx);
    }
    pool.count_sent(0, 1, 2 * SECOND);
    pool.count_received(1, 1, 2 * SECOND);
    pool.mark_dead(2);
    assert!(pool.sweep_idle(601 * SECOND).is_empty());
    assert_eq!(pool.sweep_idle(601 * SECOND + 1), vec![4]);
    assert_eq!(pool.stats(), (2, 4));
    assert!(pool.sweep_idle(602 * SECOND).is_empty());
    assert_eq!(pool.sweep_idle(603 * SECOND), vec![1, 2]);
    assert_eq!(pool.stats(), (0, 4));
}
