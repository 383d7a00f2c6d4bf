use bytes::Bytes;
use round_robin::frame::{MAX_REORDER_BYTES, MAX_REORDER_WINDOW};
use round_robin::reorder::ReorderBuf;

#[test]
fn overflow_and_completion() {
    let mut buf = ReorderBuf::new();
    for s in 2..(MAX_REORDER_WINDOW as u64 + 3) {
        buf.push(s, Bytes::from_static(b"x"));
    }
    let overflowed = buf.push(1_000_000, Bytes::from_static(b"y"));
    assert!(overflowed.overflow && !overflowed.accepted);

    assert!(!buf.is_complete_through(2));

    let ready = buf.push(1, Bytes::from_static(b"z"));
    assert!(ready.accepted && !ready.overflow);
    assert_eq!(ready.ready.len(), MAX_REORDER_WINDOW + 1);
    assert!(buf.is_complete_through(MAX_REORDER_WINDOW as u64 + 2));
    assert!(!buf.is_complete_through(MAX_REORDER_WINDOW as u64 + 3));

    let dup = buf.push(1, Bytes::from_static(b"z"));
    assert!(!dup.accepted && !dup.overflow);
}

#[test]
fn byte_budget_bounds_window() {
    let mut buf = ReorderBuf::new();
    let chunk = Bytes::from(vec![0u8; 64 * 1024]);
    let mut accepted = 0;
    for s in 2..(MAX_REORDER_WINDOW as u64 + 2) {
        if buf.push(s, chunk.clone()).accepted {
            accepted += 1;
        } else {
            break;
        }
    }
    assert_eq!(accepted, MAX_REORDER_BYTES / (64 * 1024));
    assert_eq!(buf.pending_bytes(), MAX_REORDER_BYTES);
    let overflow = buf.push(1_000_000, chunk.clone());
    assert!(overflow.overflow && !overflow.accepted);

    let ready = buf.push(1, Bytes::from_static(b"z"));
    assert!(ready.accepted);
    assert_eq!(ready.ready.len(), accepted + 1);
    assert_eq!(buf.pending_bytes(), 0);
}

#[test]
fn any_order_comes_out_in_order() {
    let text = b"the quick brown fox jumps";
    let order: [u64; 12] = [5, 2, 9, 1, 3, 3, 12, 4, 10, 6, 1, 8];
    let mut buf = ReorderBuf::default();
    let mut out: Vec<u8> = Vec::new();
    for s in order {
        let i = (s as usize - 1) * 2;
        for chunk in buf.push(s, Bytes::copy_from_slice(&text[i..i + 2])).ready {
            out.extend_from_slice(&chunk);
        }
    }
    assert_eq!(out, &text[..12]);
    assert!(buf.is_complete_through(7) && !buf.is_complete_through(8));
    assert_eq!(buf.pending_bytes(), 8);
    for s in [11u64, 7] {
        let i = (s as usize - 1) * 2;
        for chunk in buf.push(s, Bytes::copy_from_slice(&text[i..i + 2])).ready {
            out.extend_from_slice(&chunk);
        }
    }
    assert_eq!(out, &text[..24]);
    assert!(buf.is_complete_through(13));
    assert_eq!(buf.pending_bytes(), 0);
}

#[test]
fn a_waiting_number_is_taken_once() {
    let mut buf = ReorderBuf::new();
    assert!(buf.push(3, Bytes::from_static(b"first")).accepted);
    let again = buf.push(3, Bytes::from_static(b"other one"));
    assert!(!again.accepted && !again.overflow && again.ready.is_empty());
    assert_eq!(buf.pending_bytes(), 5);
    buf.push(2, Bytes::from_static(b"b"));
    let ready = buf.push(1, Bytes::from_static(b"a")).ready;
    assert_eq!(ready, vec![&b"a"[..], &b"b"[..], &b"first"[..]]);
}

#[test]
fn limits_follow_the_budget() {
    let mut small = ReorderBuf::with_limit(10);
    assert!(small.push(2, Bytes::from_static(b"0123456789")).accepted);
    assert!(small.push(3, Bytes::new()).accepted);
    assert!(small.push(4, Bytes::from_static(b"x")).overflow);
    let mut large = ReorderBuf::with_limit(600 * 65535);
    for s in 2..602u64 {
        assert!(large.push(s, Bytes::from_static(b"x")).accepted);
    }
    assert!(large.push(602, Bytes::from_static(b"x")).overflow);
}

#[test]
fn the_order_of_arrival_does_not_change_the_stream() {
    let orders: [[u64; 6]; 4] =
        [[1, 2, 3, 4, 5, 7], [7, 5, 4, 3, 2, 1], [3, 1, 7, 2, 5, 4], [4, 7, 1, 5, 3, 2]];
    for order in orders {
        let mut buf = ReorderBuf::new();
        let mut out: Vec<u8> = Vec::new();
        for s in order {
            for chunk in buf.push(s, Bytes::from(vec![s as u8; 2])).ready {
                out.extend_from_slice(&chunk);
            }
        }
        assert_eq!(out, [1, 1, 2, 2, 3, 3, 4, 4, 5, 5], "6 is missing, so 7 waits");
        assert_eq!(buf.pending_bytes(), 2);
    }
}
